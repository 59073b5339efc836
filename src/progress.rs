//! Progress reported by language servers, per server id and per progress token.
use vstd::prelude::*;
use crate::assoc::{
    assoc_map, has_key, keys_unique, lemma_assoc_absent, lemma_assoc_at, lemma_assoc_empty,
    lemma_assoc_push, lemma_assoc_remove, lemma_assoc_set,
};
use lsp_types::WorkDoneProgress;

verus! {

/// lsp-types' `WorkDoneProgress`, a server's progress report, which this
/// library stores and hands back without looking into it.
#[verifier::external_type_specification]
#[verifier::external_body]
pub struct ExWorkDoneProgress(lsp_types::WorkDoneProgress);

/// The key of one long-running operation that a server reports on.
#[derive(Clone, Debug)]
pub enum ProgressToken {
    Number(i32),
    String(String),
}

/// What a progress token stands for, as a value.
pub enum TokenKey {
    Number(i32),
    Text(Seq<char>),
}

impl View for ProgressToken {
    type V = TokenKey;

    open spec fn view(&self) -> TokenKey {
        match self {
            ProgressToken::Number(n) => TokenKey::Number(*n),
            ProgressToken::String(s) => TokenKey::Text(s@),
        }
    }
}

fn same_token(a: &ProgressToken, b: &ProgressToken) -> (r: bool)
    ensures
        r == (a@ == b@),
{
    match (a, b) {
        (ProgressToken::Number(x), ProgressToken::Number(y)) => *x == *y,
        (ProgressToken::String(x), ProgressToken::String(y)) => *x == *y,
        _ => false,
    }
}

/// The state of one progress token.
pub enum ProgressStatus {
    /// The server asked for the token; nothing was reported yet.
    Created,
    /// The last report the server made on the token.
    Started(WorkDoneProgress),
}

impl ProgressStatus {
    pub fn progress(&self) -> (r: Option<&WorkDoneProgress>)
        ensures
            match self {
                ProgressStatus::Created => r is None,
                ProgressStatus::Started(p) => r == Some(p),
            },
    {
        match self {
            ProgressStatus::Created => None,
            ProgressStatus::Started(progress) => Some(progress),
        }
    }
}

/// The tokens of one server, read as a map.
pub open spec fn table_map(v: Seq<(ProgressToken, ProgressStatus)>) -> Map<TokenKey, ProgressStatus> {
    assoc_map(v.map_values(|e: (ProgressToken, ProgressStatus)| (e.0@, e.1)))
}

pub open spec fn table_wf(v: Seq<(ProgressToken, ProgressStatus)>) -> bool {
    keys_unique(v.map_values(|e: (ProgressToken, ProgressStatus)| (e.0@, e.1)))
}

struct ServerProgress {
    id: usize,
    tokens: Vec<(ProgressToken, ProgressStatus)>,
}

spec fn servers_seq(s: Seq<ServerProgress>) -> Seq<(usize, Map<TokenKey, ProgressStatus>)> {
    s.map_values(|e: ServerProgress| (e.id, table_map(e.tokens@)))
}

/// Progress reported by language servers. Each server has a unique id,
/// given at creation by the registry; under it, each token has its status.
pub struct LspProgressMap {
    servers: Vec<ServerProgress>,
}

/// The tokens of server `id`; none when the server has no entry.
pub open spec fn tokens_of(
    m: Map<usize, Map<TokenKey, ProgressStatus>>,
    id: usize,
) -> Map<TokenKey, ProgressStatus> {
    if m.contains_key(id) {
        m[id]
    } else {
        Map::empty()
    }
}

/// The status of `token` of server `id`, if tracked.
pub open spec fn status_of(
    m: Map<usize, Map<TokenKey, ProgressStatus>>,
    id: usize,
    token: TokenKey,
) -> Option<ProgressStatus> {
    if tokens_of(m, id).contains_key(token) {
        Some(tokens_of(m, id)[token])
    } else {
        None
    }
}

/// The table after `token` of server `id` is set to `status`.
pub open spec fn with_status(
    m: Map<usize, Map<TokenKey, ProgressStatus>>,
    id: usize,
    token: TokenKey,
    status: ProgressStatus,
) -> Map<usize, Map<TokenKey, ProgressStatus>> {
    m.insert(id, tokens_of(m, id).insert(token, status))
}

/// The table after `token` of server `id` is dropped.
pub open spec fn without_token(
    m: Map<usize, Map<TokenKey, ProgressStatus>>,
    id: usize,
    token: TokenKey,
) -> Map<usize, Map<TokenKey, ProgressStatus>> {
    if m.contains_key(id) {
        m.insert(id, m[id].remove(token))
    } else {
        m
    }
}

/// Creating a token, then reporting on it, then ending it hands back the last
/// report, not the creation; ending a token that is not tracked hands back nothing.
pub proof fn lemma_progress_lifecycle(
    m: Map<usize, Map<TokenKey, ProgressStatus>>,
    id: usize,
    token: TokenKey,
    report: WorkDoneProgress,
)
    ensures
        status_of(
            with_status(with_status(m, id, token, ProgressStatus::Created), id, token, ProgressStatus::Started(report)),
            id,
            token,
        ) == Some(ProgressStatus::Started(report)),
        status_of(
            without_token(
                with_status(
                    with_status(m, id, token, ProgressStatus::Created),
                    id,
                    token,
                    ProgressStatus::Started(report),
                ),
                id,
                token,
            ),
            id,
            token,
        ) is None,
{
}

impl View for LspProgressMap {
    type V = Map<usize, Map<TokenKey, ProgressStatus>>;

    closed spec fn view(&self) -> Map<usize, Map<TokenKey, ProgressStatus>> {
        assoc_map(servers_seq(self.servers@))
    }
}

impl LspProgressMap {
    /// Ids are distinct, and so are the tokens of each server.
    pub closed spec fn wf(&self) -> bool {
        &&& keys_unique(servers_seq(self.servers@))
        &&& forall|i: int|
            0 <= i < self.servers@.len() ==> table_wf(#[trigger] self.servers@[i].tokens@)
    }

    pub fn new() -> (r: LspProgressMap)
        ensures
            r.wf(),
            r@ == Map::<usize, Map<TokenKey, ProgressStatus>>::empty(),
    {
        let r = LspProgressMap { servers: Vec::new() };
        proof {
            lemma_assoc_empty(servers_seq(r.servers@));
        }
        r
    }

    fn find_server(&self, id: usize) -> (r: Option<usize>)
        ensures
            match r {
                Some(i) => i < self.servers@.len() && self.servers@[i as int].id == id,
                None => forall|i: int| 0 <= i < self.servers@.len() ==> self.servers@[i].id != id,
            },
    {
        let mut i: usize = 0;
        while i < self.servers.len()
            invariant
                i <= self.servers@.len(),
                forall|j: int| 0 <= j < i ==> self.servers@[j].id != id,
            decreases self.servers@.len() - i,
        {
            if self.servers[i].id == id {
                return Some(i);
            }
            i = i + 1;
        }
        None
    }

    proof fn lemma_server_at(&self, i: int)
        requires
            self.wf(),
            0 <= i < self.servers@.len(),
        ensures
            self@.contains_key(self.servers@[i].id),
            self@[self.servers@[i].id] == table_map(self.servers@[i].tokens@),
    {
        lemma_assoc_at(servers_seq(self.servers@), i);
    }

    proof fn lemma_server_absent(&self, id: usize)
        requires
            forall|i: int| 0 <= i < self.servers@.len() ==> self.servers@[i].id != id,
        ensures
            !self@.contains_key(id),
    {
        lemma_assoc_absent(servers_seq(self.servers@), id);
    }

    /// All tokens of server `id`, if it has an entry.
    pub fn progress_map(&self, id: usize) -> (r: Option<&Vec<(ProgressToken, ProgressStatus)>>)
        requires
            self.wf(),
        ensures
            match r {
                Some(v) => self@.contains_key(id) && table_map(v@) == self@[id],
                None => !self@.contains_key(id),
            },
    {
        match self.find_server(id) {
            Some(i) => {
                proof {
                    self.lemma_server_at(i as int);
                }
                Some(&self.servers[i].tokens)
            },
            None => {
                proof {
                    self.lemma_server_absent(id);
                }
                None
            },
        }
    }

    /// Whether server `id` tracks any token.
    pub fn is_progressing(&self, id: usize) -> (r: bool)
        requires
            self.wf(),
        ensures
            r == (self@.contains_key(id) && exists|t: TokenKey| self@[id].contains_key(t)),
    {
        match self.find_server(id) {
            Some(i) => {
                let ghost v = self.servers@[i as int].tokens@;
                proof {
                    self.lemma_server_at(i as int);
                    let s = v.map_values(|e: (ProgressToken, ProgressStatus)| (e.0@, e.1));
                    if v.len() == 0 {
                        lemma_assoc_empty(s);
                    } else {
                        lemma_assoc_at(s, 0);
                        assert(table_map(v).contains_key(s[0].0));
                    }
                }
                self.servers[i].tokens.len() > 0
            },
            None => {
                proof {
                    self.lemma_server_absent(id);
                }
                false
            },
        }
    }

    /// The last status of `token` of server `id`.
    pub fn progress(&self, id: usize, token: &ProgressToken) -> (r: Option<&ProgressStatus>)
        requires
            self.wf(),
        ensures
            match r {
                Some(s) => status_of(self@, id, token@) == Some(*s),
                None => status_of(self@, id, token@) is None,
            },
    {
        match self.find_server(id) {
            Some(i) => {
                proof {
                    self.lemma_server_at(i as int);
                }
                let tokens = &self.servers[i].tokens;
                match find_token(tokens, token) {
                    Some(j) => {
                        proof {
                            lemma_table_at(tokens@, j as int);
                        }
                        Some(&tokens[j].1)
                    },
                    None => {
                        proof {
                            lemma_table_absent(tokens@, token@);
                        }
                        None
                    },
                }
            },
            None => {
                proof {
                    self.lemma_server_absent(id);
                }
                None
            },
        }
    }

    /// Whether `token` of server `id` is tracked.
    pub fn is_created(&mut self, id: usize, token: &ProgressToken) -> (r: bool)
        requires
            old(self).wf(),
        ensures
            *final(self) == *old(self),
            r == (status_of(old(self)@, id, token@) is Some),
    {
        self.progress(id, token).is_some()
    }

    /// Sets `token` of server `id` to `status`, adding the server or the token
    /// if absent; returns the status it replaced.
    fn set_status(&mut self, id: usize, token: ProgressToken, status: ProgressStatus) -> (r: Option<
        ProgressStatus,
    >)
        requires
            old(self).wf(),
        ensures
            final(self).wf(),
            r == status_of(old(self)@, id, token@),
            final(self)@ == with_status(old(self)@, id, token@, status),
    {
        let ghost before = self@;
        let ghost key = token@;
        match self.find_server(id) {
            Some(i) => {
                proof {
                    self.lemma_server_at(i as int);
                }
                let ghost old_servers = self.servers@;
                let mut server = self.servers.remove(i);
                let ghost old_tokens = server.tokens@;
                proof {
                    assert(table_wf(old_tokens));
                }
                let prior = put_token(&mut server.tokens, token, status);
                self.servers.insert(i, server);
                proof {
                    let ss = servers_seq(old_servers);
                    assert(self.servers@ =~= old_servers.update(i as int, server));
                    assert(servers_seq(self.servers@) =~= ss.update(
                        i as int,
                        (ss[i as int].0, table_map(server.tokens@)),
                    ));
                    lemma_assoc_set(ss, i as int, table_map(server.tokens@));
                    assert forall|j: int| 0 <= j < self.servers@.len() implies table_wf(
                        #[trigger] self.servers@[j].tokens@,
                    ) by {
                        if j != i {
                            assert(self.servers@[j] == old_servers[j]);
                        }
                    }
                }
                prior
            },
            None => {
                proof {
                    self.lemma_server_absent(id);
                }
                let mut tokens: Vec<(ProgressToken, ProgressStatus)> = Vec::new();
                proof {
                    lemma_table_empty(tokens@);
                }
                let prior = put_token(&mut tokens, token, status);
                let ghost old_servers = self.servers@;
                let server = ServerProgress { id, tokens };
                self.servers.push(server);
                proof {
                    let ss = servers_seq(old_servers);
                    assert(servers_seq(self.servers@) =~= ss.push((id, table_map(server.tokens@))));
                    assert(!has_key(ss, id)) by {
                        if has_key(ss, id) {
                            let j = choose|j: int| 0 <= j < ss.len() && ss[j].0 == id;
                            assert(old_servers[j].id == id);
                        }
                    }
                    lemma_assoc_push(ss, id, table_map(server.tokens@));
                    assert forall|j: int| 0 <= j < self.servers@.len() implies table_wf(
                        #[trigger] self.servers@[j].tokens@,
                    ) by {
                        if j < old_servers.len() {
                            assert(self.servers@[j] == old_servers[j]);
                        }
                    }
                    assert(tokens_of(before, id) == Map::<TokenKey, ProgressStatus>::empty());
                }
                prior
            },
        }
    }

    /// Starts tracking `token` of server `id` as created, replacing any status.
    pub fn create(&mut self, id: usize, token: ProgressToken)
        requires
            old(self).wf(),
        ensures
            final(self).wf(),
            final(self)@ == with_status(old(self)@, id, token@, ProgressStatus::Created),
    {
        let _ = self.set_status(id, token, ProgressStatus::Created);
    }

    /// Ends the progress of `token` of server `id`: removes the token and
    /// returns its status, or `None` if it was not tracked.
    pub fn end_progress(&mut self, id: usize, token: &ProgressToken) -> (r: Option<ProgressStatus>)
        requires
            old(self).wf(),
        ensures
            final(self).wf(),
            r == status_of(old(self)@, id, token@),
            final(self)@ == without_token(old(self)@, id, token@),
    {
        let ghost before = self@;
        match self.find_server(id) {
            Some(i) => {
                proof {
                    self.lemma_server_at(i as int);
                }
                let ghost old_servers = self.servers@;
                let mut server = self.servers.remove(i);
                proof {
                    assert(table_wf(server.tokens@));
                }
                let prior = take_token(&mut server.tokens, token);
                self.servers.insert(i, server);
                proof {
                    let ss = servers_seq(old_servers);
                    assert(self.servers@ =~= old_servers.update(i as int, server));
                    assert(servers_seq(self.servers@) =~= ss.update(
                        i as int,
                        (ss[i as int].0, table_map(server.tokens@)),
                    ));
                    lemma_assoc_set(ss, i as int, table_map(server.tokens@));
                    assert forall|j: int| 0 <= j < self.servers@.len() implies table_wf(
                        #[trigger] self.servers@[j].tokens@,
                    ) by {
                        if j != i {
                            assert(self.servers@[j] == old_servers[j]);
                        }
                    }
                }
                prior
            },
            None => {
                proof {
                    self.lemma_server_absent(id);
                }
                None
            },
        }
    }

    /// Sets `token` of server `id` to the report `status`; returns the status
    /// it replaced, or `None`.
    pub fn update(&mut self, id: usize, token: ProgressToken, status: WorkDoneProgress) -> (r: Option<
        ProgressStatus,
    >)
        requires
            old(self).wf(),
        ensures
            final(self).wf(),
            r == status_of(old(self)@, id, token@),
            final(self)@ == with_status(old(self)@, id, token@, ProgressStatus::Started(status)),
    {
        self.set_status(id, token, ProgressStatus::Started(status))
    }
}

spec fn keyed(v: Seq<(ProgressToken, ProgressStatus)>) -> Seq<(TokenKey, ProgressStatus)> {
    v.map_values(|e: (ProgressToken, ProgressStatus)| (e.0@, e.1))
}

proof fn lemma_table_at(v: Seq<(ProgressToken, ProgressStatus)>, j: int)
    requires
        table_wf(v),
        0 <= j < v.len(),
    ensures
        table_map(v).contains_key(v[j].0@),
        table_map(v)[v[j].0@] == v[j].1,
{
    lemma_assoc_at(keyed(v), j);
}

proof fn lemma_table_absent(v: Seq<(ProgressToken, ProgressStatus)>, k: TokenKey)
    requires
        forall|j: int| 0 <= j < v.len() ==> v[j].0@ != k,
    ensures
        !table_map(v).contains_key(k),
{
    lemma_assoc_absent(keyed(v), k);
}

proof fn lemma_table_empty(v: Seq<(ProgressToken, ProgressStatus)>)
    requires
        v.len() == 0,
    ensures
        table_wf(v),
        table_map(v) == Map::<TokenKey, ProgressStatus>::empty(),
{
    lemma_assoc_empty(keyed(v));
}

fn find_token(tokens: &Vec<(ProgressToken, ProgressStatus)>, token: &ProgressToken) -> (r: Option<
    usize,
>)
    ensures
        match r {
            Some(j) => j < tokens@.len() && tokens@[j as int].0@ == token@,
            None => forall|j: int| 0 <= j < tokens@.len() ==> tokens@[j].0@ != token@,
        },
{
    let mut j: usize = 0;
    while j < tokens.len()
        invariant
            j <= tokens@.len(),
            forall|k: int| 0 <= k < j ==> tokens@[k].0@ != token@,
        decreases tokens@.len() - j,
    {
        if same_token(&tokens[j].0, token) {
            return Some(j);
        }
        j = j + 1;
    }
    None
}

/// Sets `token` to `status` in one server's tokens; returns the status replaced.
fn put_token(
    tokens: &mut Vec<(ProgressToken, ProgressStatus)>,
    token: ProgressToken,
    status: ProgressStatus,
) -> (r: Option<ProgressStatus>)
    requires
        table_wf(old(tokens)@),
    ensures
        table_wf(final(tokens)@),
        table_map(final(tokens)@) == table_map(old(tokens)@).insert(token@, status),
        r == (if table_map(old(tokens)@).contains_key(token@) {
            Some(table_map(old(tokens)@)[token@])
        } else {
            None
        }),
{
    let ghost before = tokens@;
    let ghost key = token@;
    match find_token(tokens, &token) {
        Some(j) => {
            proof {
                lemma_table_at(before, j as int);
            }
            let (_, prior) = tokens.remove(j);
            tokens.insert(j, (token, status));
            proof {
                assert(tokens@ =~= before.update(j as int, (token, status)));
                assert(keyed(tokens@) =~= keyed(before).update(j as int, (key, status)));
                lemma_assoc_set(keyed(before), j as int, status);
            }
            Some(prior)
        },
        None => {
            proof {
                lemma_table_absent(before, key);
                assert(!has_key(keyed(before), key)) by {
                    if has_key(keyed(before), key) {
                        let k = choose|k: int| 0 <= k < keyed(before).len() && keyed(before)[k].0 == key;
                        assert(before[k].0@ == key);
                    }
                }
            }
            tokens.push((token, status));
            proof {
                assert(keyed(tokens@) =~= keyed(before).push((key, status)));
                lemma_assoc_push(keyed(before), key, status);
            }
            None
        },
    }
}

/// Removes `token` from one server's tokens; returns its status.
fn take_token(tokens: &mut Vec<(ProgressToken, ProgressStatus)>, token: &ProgressToken) -> (r: Option<
    ProgressStatus,
>)
    requires
        table_wf(old(tokens)@),
    ensures
        table_wf(final(tokens)@),
        table_map(final(tokens)@) == table_map(old(tokens)@).remove(token@),
        r == (if table_map(old(tokens)@).contains_key(token@) {
            Some(table_map(old(tokens)@)[token@])
        } else {
            None
        }),
{
    let ghost before = tokens@;
    match find_token(tokens, token) {
        Some(j) => {
            proof {
                lemma_table_at(before, j as int);
            }
            let (_, prior) = tokens.remove(j);
            proof {
                assert(keyed(tokens@) =~= keyed(before).remove(j as int));
                lemma_assoc_remove(keyed(before), j as int);
            }
            Some(prior)
        },
        None => {
            proof {
                lemma_table_absent(before, token@);
                assert(table_map(before).remove(token@) =~= table_map(before));
            }
            None
        },
    }
}

} // verus!
