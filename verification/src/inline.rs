//! Values stored directly in the record.
use vstd::prelude::*;
use vstd::string::StringExecFns;

verus! {

/// The text that shows which slots are filled: `#` for a value, `_` for none.
pub open spec fn occupancy_text(filled: Seq<bool>) -> Seq<char> {
    Seq::new(filled.len(), |i: int| if filled[i] { '#' } else { '_' })
}

/// One optional value stored directly in a record.
pub struct Inline<C>(pub Option<C>);

/// A list of inline slots, one per kind, in declared order.
///
/// The list is a nested pair: `()` is the empty list and `(Inline<H>, T)` puts a
/// slot for the kind `H` before the list `T`.
pub trait Inlines: Sized {
    /// How many kinds the list has.
    spec fn arity() -> nat;

    /// Which slots hold a value, in declared order.
    spec fn filled(&self) -> Seq<bool>;

    /// Every list has one flag per kind.
    proof fn lemma_filled_len(&self)
        ensures
            self.filled().len() == Self::arity(),
    ;

    /// The list with no value in any slot.
    fn new() -> (r: Self)
        ensures
            r.filled() == Seq::new(Self::arity(), |i: int| false),
    ;

    /// Appends `#` or `_` for each slot to `out`.
    fn push_occupancy(&self, out: &mut String)
        ensures
            final(out)@ == old(out)@ + occupancy_text(self.filled()),
    ;
}

impl Inlines for () {
    open spec fn arity() -> nat {
        0
    }

    open spec fn filled(&self) -> Seq<bool> {
        Seq::empty()
    }

    proof fn lemma_filled_len(&self) {
    }

    fn new() -> (r: Self) {
        assert(Seq::<bool>::empty() =~= Seq::new(0, |i: int| false));
        ()
    }

    fn push_occupancy(&self, out: &mut String) {
        assert(out@ =~= old(out)@ + occupancy_text(self.filled()));
    }
}

impl<H, T: Inlines> Inlines for (Inline<H>, T) {
    open spec fn arity() -> nat {
        1 + T::arity()
    }

    open spec fn filled(&self) -> Seq<bool> {
        seq![self.0.0.is_some()] + self.1.filled()
    }

    proof fn lemma_filled_len(&self) {
        self.1.lemma_filled_len();
    }

    fn new() -> (r: Self) {
        let r = (Inline(None), T::new());
        assert(r.filled() =~= Seq::new(Self::arity(), |i: int| false));
        r
    }

    fn push_occupancy(&self, out: &mut String) {
        proof {
            reveal_strlit("#");
            reveal_strlit("_");
        }
        if self.0.0.is_some() {
            out.append("#");
        } else {
            out.append("_");
        }
        self.1.push_occupancy(out);
        assert(out@ =~= old(out)@ + occupancy_text(self.filled()));
    }
}

/// The inline slots of one record.
pub struct InlineStorage<I>(pub I);

impl<I: Inlines> InlineStorage<I> {
    /// Which slots hold a value, in declared order.
    pub open spec fn filled(&self) -> Seq<bool> {
        self.0.filled()
    }

    /// The storage with no value in any slot.
    pub fn new() -> (r: Self)
        ensures
            r.filled() == Seq::new(I::arity(), |i: int| false),
    {
        InlineStorage(I::new())
    }

    /// The storage that holds the values read from a node.
    pub fn query(items: I) -> (r: Self)
        ensures
            r.0 == items,
    {
        InlineStorage(items)
    }

    /// One character per slot: `#` where a value is stored, `_` where none is.
    pub fn occupancy(&self) -> (s: String)
        ensures
            s@ == occupancy_text(self.filled()),
    {
        let mut s = String::new();
        self.0.push_occupancy(&mut s);
        assert(s@ =~= occupancy_text(self.filled()));
        s
    }
}

} // verus!
