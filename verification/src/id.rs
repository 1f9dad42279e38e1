use vstd::prelude::*;

verus! {

/// A source of automatically incremented identifiers, starting at 1.
pub struct IdCounter {
    next: usize,
}

impl View for IdCounter {
    type V = usize;

    /// The identifier that the next call of `get_id` hands out.
    closed spec fn view(&self) -> usize {
        self.next
    }
}

impl IdCounter {
    /// A fresh counter whose first identifier is 1.
    pub fn new() -> (res: IdCounter)
        ensures
            res@ == 1,
    {
        IdCounter { next: 1 }
    }
}

/// The identifier that follows `id`: one more, wrapping around to 0 after
/// `usize::MAX`.
pub open spec fn next_id(id: usize) -> usize {
    if id == usize::MAX {
        0
    } else {
        (id + 1) as usize
    }
}

/// The identifiers that `n` successive calls of `get_id` hand out from a
/// counter that stands at `start`.
pub open spec fn ids_from(start: usize, n: nat) -> Seq<usize>
    decreases n,
{
    if n == 0 {
        Seq::empty()
    } else {
        seq![start] + ids_from(next_id(start), (n - 1) as nat)
    }
}

proof fn lemma_ids_count_up(start: usize, n: nat)
    requires
        start + n <= usize::MAX + 1,
    ensures
        ids_from(start, n) =~= Seq::new(n, |i: int| (start + i) as usize),
    decreases n,
{
    if n > 0 {
        if n > 1 {
            lemma_ids_count_up(next_id(start), (n - 1) as nat);
        } else {
            assert(ids_from(next_id(start), 0) =~= Seq::<usize>::empty());
        }
    }
}

/// The first `n` identifiers of a fresh counter (`n` at most `usize::MAX`)
/// are exactly 1, 2, ..., n: none repeats and none is skipped.
pub proof fn law_fresh_ids_count_from_one(n: nat)
    requires
        n <= usize::MAX,
    ensures
        ids_from(1, n) == Seq::new(n, |i: int| (i + 1) as usize),
        forall|i: int, j: int| 0 <= i < j < n ==> ids_from(1, n)[i] != ids_from(1, n)[j],
{
    lemma_ids_count_up(1, n);
    assert(Seq::new(n, |i: int| (1 + i) as usize) =~= Seq::new(n, |i: int| (i + 1) as usize));
}

/// Automatic incremental id: hands out the counter's current value and
/// advances it by one (wrapping around at `usize::MAX`).
pub fn get_id(ids: &mut IdCounter) -> (id: usize)
    ensures
        id == old(ids)@,
        final(ids)@ == next_id(old(ids)@),
{
    let id = ids.next;
    ids.next = ids.next.wrapping_add(1);
    id
}

} // verus!
