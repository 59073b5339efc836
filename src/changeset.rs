//! Edit operations over a document, as one simultaneous description of a change.
use vstd::prelude::*;
use vstd::string::StrSliceExecFns;

verus! {

/// One step of a change: keep, drop or add text. Applied left to right, the
/// retains and deletes of a change consume the old document exactly once.
#[derive(Clone, Debug)]
pub enum Operation {
    /// Keep the next `n` characters of the old document.
    Retain(usize),
    /// Drop the next `n` characters of the old document.
    Delete(usize),
    /// Add text at the current place.
    Insert(String),
}

/// How many characters of the old document the operations consume.
pub open spec fn consumed(ops: Seq<Operation>) -> nat
    decreases ops.len(),
{
    if ops.len() == 0 {
        0
    } else {
        match ops[0] {
            Operation::Retain(n) => n as nat + consumed(ops.drop_first()),
            Operation::Delete(n) => n as nat + consumed(ops.drop_first()),
            Operation::Insert(_) => consumed(ops.drop_first()),
        }
    }
}

/// The document that the operations make of `old`.
pub open spec fn apply_ops(old: Seq<char>, ops: Seq<Operation>) -> Seq<char>
    decreases ops.len(),
{
    if ops.len() == 0 {
        old
    } else {
        match ops[0] {
            Operation::Retain(n) => old.take(n as int) + apply_ops(old.skip(n as int), ops.drop_first()),
            Operation::Delete(n) => apply_ops(old.skip(n as int), ops.drop_first()),
            Operation::Insert(s) => s@ + apply_ops(old, ops.drop_first()),
        }
    }
}

proof fn lemma_consumed_split(ops: Seq<Operation>, k: int)
    requires
        0 <= k < ops.len(),
    ensures
        consumed(ops.skip(k)) == match ops[k] {
            Operation::Retain(n) => n as nat,
            Operation::Delete(n) => n as nat,
            Operation::Insert(_) => 0nat,
        } + consumed(ops.skip(k + 1)),
{
    assert(ops.skip(k).drop_first() =~= ops.skip(k + 1));
}

/// The document that `changes` make of `old`; `None` when they do not
/// consume `old` exactly.
pub fn apply(old: &[char], changes: &[Operation]) -> (r: Option<Vec<char>>)
    ensures
        match r {
            Some(v) => consumed(changes@) == old@.len() && v@ == apply_ops(old@, changes@),
            None => consumed(changes@) != old@.len(),
        },
{
    let ghost ops = changes@;
    let mut out: Vec<char> = Vec::new();
    let mut pos: usize = 0;
    let mut k: usize = 0;
    proof {
        assert(ops.skip(0) =~= ops);
        assert(old@.skip(0) =~= old@);
    }
    while k < changes.len()
        invariant
            ops == changes@,
            k <= ops.len(),
            pos <= old@.len(),
            consumed(ops) == pos + consumed(ops.skip(k as int)),
            apply_ops(old@, ops) == out@ + apply_ops(old@.skip(pos as int), ops.skip(k as int)),
        decreases ops.len() - k,
    {
        proof {
            lemma_consumed_split(ops, k as int);
            assert(ops.skip(k as int).drop_first() =~= ops.skip(k + 1));
        }
        match &changes[k] {
            Operation::Retain(n) => {
                if *n > old.len() - pos {
                    return None;
                }
                let ghost before = out@;
                let mut i: usize = 0;
                while i < *n
                    invariant
                        i <= *n,
                        pos + *n <= old@.len(),
                        old@.len() == old.len(),
                        out@ == before + old@.subrange(pos as int, pos + i),
                    decreases *n - i,
                {
                    out.push(old[pos + i]);
                    i = i + 1;
                    proof {
                        assert(out@ =~= before + old@.subrange(pos as int, pos + i));
                    }
                }
                proof {
                    assert(old@.skip(pos as int).take(*n as int) =~= old@.subrange(pos as int, pos + *n));
                    assert(old@.skip(pos as int).skip(*n as int) =~= old@.skip(pos + *n));
                    assert(before + (old@.subrange(pos as int, pos + *n) + apply_ops(
                        old@.skip(pos + *n),
                        ops.skip(k + 1),
                    )) =~= out@ + apply_ops(old@.skip(pos + *n), ops.skip(k + 1)));
                }
                pos = pos + *n;
            },
            Operation::Delete(n) => {
                if *n > old.len() - pos {
                    return None;
                }
                proof {
                    assert(old@.skip(pos as int).skip(*n as int) =~= old@.skip(pos + *n));
                }
                pos = pos + *n;
            },
            Operation::Insert(s) => {
                let len = s.as_str().unicode_len();
                let ghost before = out@;
                let mut i: usize = 0;
                while i < len
                    invariant
                        i <= len,
                        len == s@.len(),
                        out@ == before + s@.take(i as int),
                    decreases len - i,
                {
                    out.push(s.as_str().get_char(i));
                    i = i + 1;
                    proof {
                        assert(out@ =~= before + s@.take(i as int));
                    }
                }
                proof {
                    assert(s@.take(len as int) =~= s@);
                    assert(before + (s@ + apply_ops(old@.skip(pos as int), ops.skip(k + 1))) =~= out@
                        + apply_ops(old@.skip(pos as int), ops.skip(k + 1)));
                }
            },
        }
        k = k + 1;
    }
    if pos < old.len() {
        return None;
    }
    proof {
        assert(ops.skip(k as int).len() == 0);
        assert(old@.skip(pos as int).len() == 0);
        assert(out@ + old@.skip(pos as int) =~= out@);
    }
    Some(out)
}

} // verus!
