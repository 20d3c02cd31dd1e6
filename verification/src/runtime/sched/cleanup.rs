//! A goroutine's cleanup registry: resources register a cleanup when
//! acquired and unregister it when released normally; when the
//! goroutine panics every cleanup still registered runs, the most
//! recently registered first. Cleanups are named by an identity (the
//! address of their node); the caller runs them.
use vstd::prelude::*;

verus! {

/// The registered cleanups, most recent first.
pub struct Cleanups {
    list: Vec<u64>,
}

impl View for Cleanups {
    type V = Seq<u64>;

    closed spec fn view(&self) -> Seq<u64> {
        self.list@
    }
}

/// The first place `node` is registered, or `-1`.
pub open spec fn first_index(s: Seq<u64>, node: u64) -> int
    decreases s.len(),
{
    if s.len() == 0 {
        -1
    } else if s[0] == node {
        0
    } else {
        let k = first_index(s.drop_first(), node);
        if k < 0 {
            -1
        } else {
            k + 1
        }
    }
}

impl Cleanups {
    /// No cleanup registered.
    pub fn new() -> (c: Self)
        ensures
            c@ == Seq::<u64>::empty(),
    {
        let c = Cleanups { list: Vec::new() };
        assert(c@ =~= Seq::<u64>::empty());
        c
    }

    /// `register` — `node` becomes the most recent cleanup.
    pub fn register(&mut self, node: u64)
        ensures
            final(self)@ == seq![node] + old(self)@,
    {
        self.list.insert(0, node);
        assert(self@ =~= seq![node] + old(self)@);
    }

    /// `unregister` — drops the most recent registration of `node`;
    /// nothing happens when it is not registered.
    pub fn unregister(&mut self, node: u64)
        ensures
            first_index(old(self)@, node) < 0 ==> final(self)@ == old(self)@,
            first_index(old(self)@, node) >= 0 ==> final(self)@ == old(self)@.remove(first_index(old(self)@, node)),
    {
        let ghost s = self@;
        let mut i: usize = 0;
        assert(s.skip(0) =~= s);
        while i < self.list.len()
            invariant
                i <= self.list.len(),
                self@ == s,
                s == old(self)@,
                first_index(s, node) == (if first_index(s.skip(i as int), node) < 0 {
                    -1
                } else {
                    first_index(s.skip(i as int), node) + i
                }),
            decreases self.list.len() - i,
        {
            proof {
                assert(s.skip(i as int).drop_first() =~= s.skip(i + 1));
                assert(s.skip(i as int)[0] == s[i as int]);
            }
            if self.list[i] == node {
                self.list.remove(i);
                return;
            }
            i = i + 1;
        }
        assert(s.skip(s.len() as int) =~= Seq::<u64>::empty());
    }

    /// `run_all` — takes every registered cleanup, most recent first,
    /// for the caller to run; none stays registered.
    pub fn run_all(&mut self) -> (r: Vec<u64>)
        ensures
            r@ == old(self)@,
            final(self)@ == Seq::<u64>::empty(),
    {
        let mut r: Vec<u64> = Vec::new();
        std::mem::swap(&mut r, &mut self.list);
        assert(self@ =~= Seq::<u64>::empty());
        r
    }
}

/// A cleanup registered and then unregistered leaves the registry as
/// it was.
pub proof fn lemma_register_unregister(s: Seq<u64>, node: u64)
    ensures
        first_index(seq![node] + s, node) == 0,
        (seq![node] + s).remove(0) == s,
{
    assert((seq![node] + s)[0] == node);
    assert((seq![node] + s).remove(0) =~= s);
}

} // verus!
