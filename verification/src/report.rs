//! Reconstruction of a run's timeline from stored elapsed times, and the
//! layout of the tables that show runs.
use vstd::prelude::*;

verus! {

/// Whole seconds of the first `i` jobs, a missing elapsed time counting as zero.
pub open spec fn elapsed_secs_upto(elapsed_ms: Seq<Option<u64>>, i: int) -> nat
    decreases i,
{
    if i <= 0 {
        0
    } else {
        elapsed_secs_upto(elapsed_ms, i - 1) + match elapsed_ms[i - 1] {
            Some(ms) => (ms / 1000) as nat,
            None => 0nat,
        }
    }
}

/// Start and end times, in Unix seconds, of jobs run one after the other from
/// `started_at`: each job starts when the one before it ends and lasts its
/// elapsed whole seconds.
pub fn timeline(started_at: u64, elapsed_ms: &Vec<Option<u64>>) -> (r: Vec<(u64, u64)>)
    requires
        started_at + elapsed_secs_upto(elapsed_ms@, elapsed_ms@.len() as int) <= u64::MAX,
    ensures
        r@.len() == elapsed_ms@.len(),
        forall|i: int|
            0 <= i < r@.len() ==> (#[trigger] r@[i]).0 == started_at + elapsed_secs_upto(elapsed_ms@, i)
                && r@[i].1 == started_at + elapsed_secs_upto(elapsed_ms@, i + 1),
        r@.len() > 0 ==> r@[0].0 == started_at,
        forall|i: int|
            0 <= i < r@.len() ==> (#[trigger] r@[i]).1 == r@[i].0 + match elapsed_ms@[i] {
                Some(ms) => ms / 1000,
                None => 0,
            },
        forall|i: int| 0 <= i < r@.len() - 1 ==> (#[trigger] r@[i + 1]).0 == r@[i].1,
{
    let mut r: Vec<(u64, u64)> = Vec::new();
    let mut cursor = started_at;
    let mut i: usize = 0;
    proof {
        lemma_elapsed_secs_monotone(elapsed_ms@, elapsed_ms@.len() as int);
    }
    while i < elapsed_ms.len()
        invariant
            0 <= i <= elapsed_ms.len(),
            started_at + elapsed_secs_upto(elapsed_ms@, elapsed_ms@.len() as int) <= u64::MAX,
            forall|j: int| 0 <= j <= elapsed_ms@.len() ==> #[trigger] elapsed_secs_upto(elapsed_ms@, j)
                <= elapsed_secs_upto(elapsed_ms@, elapsed_ms@.len() as int),
            cursor == started_at + elapsed_secs_upto(elapsed_ms@, i as int),
            r@.len() == i,
            forall|j: int|
                0 <= j < i ==> (#[trigger] r@[j]).0 == started_at + elapsed_secs_upto(elapsed_ms@, j)
                    && r@[j].1 == started_at + elapsed_secs_upto(elapsed_ms@, j + 1),
            forall|j: int|
                0 <= j < i ==> (#[trigger] r@[j]).1 == r@[j].0 + match elapsed_ms@[j] {
                    Some(ms) => ms / 1000,
                    None => 0,
                },
        decreases elapsed_ms.len() - i,
    {
        let ms = match elapsed_ms[i] {
            Some(v) => v,
            None => 0,
        };
        let start = cursor;
        proof {
            assert(elapsed_secs_upto(elapsed_ms@, i as int + 1) <= elapsed_secs_upto(elapsed_ms@, elapsed_ms@.len() as int));
        }
        cursor = cursor + ms / 1000;
        r.push((start, cursor));
        i += 1;
    }
    assert(elapsed_secs_upto(elapsed_ms@, 0) == 0);
    r
}

proof fn lemma_elapsed_secs_monotone(elapsed_ms: Seq<Option<u64>>, n: int)
    requires
        0 <= n,
    ensures
        forall|j: int| 0 <= j <= n ==> #[trigger] elapsed_secs_upto(elapsed_ms, j) <= elapsed_secs_upto(elapsed_ms, n),
    decreases n,
{
    if n > 0 {
        lemma_elapsed_secs_monotone(elapsed_ms, n - 1);
    }
}

/// The length in bytes of a name, as `str::len` gives it.
pub open spec fn byte_len(s: Seq<char>) -> usize {
    vstd::utf8::encode_utf8(s).len() as usize
}

/// The width of a column of names: the byte length of the longest, 0 for none.
pub fn column_width(names: &Vec<String>) -> (r: usize)
    ensures
        forall|i: int| 0 <= i < names@.len() ==> byte_len((#[trigger] names@[i])@) <= r,
        names@.len() == 0 ==> r == 0,
        names@.len() > 0 ==> exists|i: int| 0 <= i < names@.len() && byte_len((#[trigger] names@[i])@) == r,
{
    let mut w: usize = 0;
    let mut i: usize = 0;
    while i < names.len()
        invariant
            i <= names@.len(),
            forall|j: int| 0 <= j < i ==> byte_len((#[trigger] names@[j])@) <= w,
            i == 0 ==> w == 0,
            i > 0 ==> exists|j: int| 0 <= j < i && byte_len((#[trigger] names@[j])@) == w,
        decreases names.len() - i,
    {
        let l = names[i].as_str().len();
        assert(l == byte_len(names@[i as int]@));
        if l > w || i == 0 {
            w = l;
        }
        i = i + 1;
    }
    w
}

} // verus!
