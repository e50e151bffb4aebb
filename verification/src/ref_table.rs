//! Tables of values beside the records, and the keys that refer into them.
use core::marker::PhantomData;
use vstd::prelude::*;
use vstd::string::StringExecFns;
use crate::entity::Error;
use crate::text::{decimal, push_decimal};

verus! {

/// The largest position that a key can refer to.
pub const MAX_INDEX: u16 = 65535;

// -------------------------------------
//          COUNTS AND SLOTS
// -------------------------------------
/// Whether every table that is about to receive a value can still be addressed
/// after it: `lens` holds the lengths of the tables, `present` says which of them
/// receive a value.
pub open spec fn room_for(lens: Seq<nat>, present: Seq<bool>) -> bool {
    forall|k: int| 0 <= k < lens.len() && k < present.len() && present[k] ==> lens[k] < MAX_INDEX
}

/// The lengths of the tables after each table marked in `present` received one
/// value.
pub open spec fn grown(lens: Seq<nat>, present: Seq<bool>) -> Seq<nat> {
    Seq::new(
        lens.len(),
        |k: int|
            if present[k] {
                lens[k] + 1
            } else {
                lens[k]
            },
    )
}

/// The slots of the keys handed out when each table marked in `present` received
/// one value: the new last position of the table, or 0 where nothing was stored.
pub open spec fn issued(lens: Seq<nat>, present: Seq<bool>) -> Seq<nat> {
    Seq::new(
        lens.len(),
        |k: int|
            if present[k] {
                lens[k] + 1
            } else {
                0nat
            },
    )
}

/// Whether each slot is vacant or refers to a position that its table has.
pub open spec fn in_range(slots: Seq<nat>, lens: Seq<nat>) -> bool {
    &&& slots.len() == lens.len()
    &&& forall|k: int| 0 <= k < slots.len() ==> slots[k] <= lens[k]
}

/// `n`, or the largest `usize` where `n` does not fit.
pub open spec fn saturated(n: nat) -> usize {
    if n <= usize::MAX {
        n as usize
    } else {
        usize::MAX
    }
}

/// The length of the table at `index`, or 0 where there is no such table.
pub open spec fn held(lens: Seq<nat>, index: usize) -> nat {
    if index < lens.len() {
        lens[index as int]
    } else {
        0
    }
}

/// The text of one key: `K__` when vacant, else `K#` and the position.
pub open spec fn key_text(slot: nat) -> Seq<char> {
    if slot == 0 {
        seq!['K', '_', '_']
    } else {
        seq!['K', '#'] + decimal(slot)
    }
}

/// The texts of the keys, one after the other.
pub open spec fn keys_text(slots: Seq<nat>) -> Seq<char>
    decreases slots.len(),
{
    if slots.len() == 0 {
        Seq::empty()
    } else {
        key_text(slots[0]) + keys_text(slots.drop_first())
    }
}

// -------------------------------------
//                KEYS
// -------------------------------------
/// An optional 1-based position in the table of the kind `C`.
pub struct Key<C> {
    index: u16,
    _value_ty: PhantomData<C>,
}

impl<C> Key<C> {
    /// The position that the key refers to, or 0 when it refers to nothing.
    pub closed spec fn slot(&self) -> nat {
        self.index as nat
    }

    /// The key that refers to nothing.
    pub fn absent() -> (r: Self)
        ensures
            r.slot() == 0,
    {
        Key { index: 0, _value_ty: PhantomData }
    }

    /// The key read from its stored number: 0 refers to nothing, `n` to the
    /// `n`-th value of the table.
    pub fn from_raw(raw: u16) -> (r: Self)
        ensures
            r.slot() == raw,
    {
        Key { index: raw, _value_ty: PhantomData }
    }

    /// The number that the key is stored as.
    pub fn raw(&self) -> (r: u16)
        ensures
            r == self.slot(),
    {
        self.index
    }

    /// The key for the position that a table reported, if a key can hold it.
    pub fn from_index(index: Option<usize>) -> (r: Result<Self, Error>)
        ensures
            match index {
                None => r is Ok && r->Ok_0.slot() == 0,
                Some(i) => if i <= MAX_INDEX {
                    r is Ok && r->Ok_0.slot() == i
                } else {
                    r == Err::<Self, Error>(Error::TableFull)
                },
            },
    {
        match index {
            None => Ok(Key::absent()),
            Some(i) => {
                if i <= 65535 {
                    Ok(Key { index: i as u16, _value_ty: PhantomData })
                } else {
                    Err(Error::TableFull)
                }
            },
        }
    }

    /// Appends `K__` or `K#` and the position to `out`.
    pub fn push_text(&self, out: &mut String)
        ensures
            final(out)@ == old(out)@ + key_text(self.slot()),
    {
        proof {
            reveal_strlit("K__");
            reveal_strlit("K#");
        }
        if self.index == 0 {
            out.append("K__");
            assert(out@ =~= old(out)@ + key_text(self.slot()));
        } else {
            out.append("K#");
            push_decimal(out, self.index);
            assert(out@ =~= old(out)@ + key_text(self.slot()));
        }
    }
}

/// A list of keys, one per table kind, in declared order: `()` or
/// `(Key<C>, Tail)`.
pub trait Keys: Sized {
    /// How many kinds the list has.
    spec fn arity() -> nat;

    /// The slot of each key, in declared order.
    spec fn slots(&self) -> Seq<nat>;

    /// Every list has one slot per kind.
    proof fn lemma_slots_len(&self)
        ensures
            self.slots().len() == Self::arity(),
    ;

    /// The list in which no key refers to anything.
    fn empty() -> (r: Self)
        ensures
            r.slots() == Seq::new(Self::arity(), |i: int| 0nat),
    ;

    /// Appends the text of each key to `out`.
    fn push_occupancy(&self, out: &mut String)
        ensures
            final(out)@ == old(out)@ + keys_text(self.slots()),
    ;
}

impl Keys for () {
    open spec fn arity() -> nat {
        0
    }

    open spec fn slots(&self) -> Seq<nat> {
        Seq::empty()
    }

    proof fn lemma_slots_len(&self) {
    }

    fn empty() -> (r: Self) {
        assert(Seq::<nat>::empty() =~= Seq::new(0, |i: int| 0nat));
        ()
    }

    fn push_occupancy(&self, out: &mut String) {
        assert(out@ =~= old(out)@ + keys_text(self.slots()));
    }
}

impl<C, Tl: Keys> Keys for (Key<C>, Tl) {
    open spec fn arity() -> nat {
        1 + Tl::arity()
    }

    open spec fn slots(&self) -> Seq<nat> {
        seq![self.0.slot()] + self.1.slots()
    }

    proof fn lemma_slots_len(&self) {
        self.1.lemma_slots_len();
    }

    fn empty() -> (r: Self) {
        let r = (Key::absent(), Tl::empty());
        assert(r.slots() =~= Seq::new(Self::arity(), |i: int| 0nat));
        r
    }

    fn push_occupancy(&self, out: &mut String) {
        self.0.push_text(out);
        self.1.push_occupancy(out);
        assert(self.slots().drop_first() =~= self.1.slots());
        assert(out@ =~= old(out)@ + keys_text(self.slots()));
    }
}

/// The keys of one record.
pub struct KeyStorage<Ks>(pub Ks);

impl<Ks: Keys> KeyStorage<Ks> {
    /// The slot of each key, in declared order.
    pub open spec fn slots(&self) -> Seq<nat> {
        self.0.slots()
    }

    /// The keys of a record that has no value in any table.
    pub fn no_component() -> (r: Self)
        ensures
            r.slots() == Seq::new(Ks::arity(), |i: int| 0nat),
    {
        KeyStorage(Ks::empty())
    }

    /// The text of each key, one after the other: `K__` for a key that refers
    /// to nothing, `K#` and the position for one that does.
    pub fn occupancy(&self) -> (s: String)
        ensures
            s@ == keys_text(self.slots()),
    {
        let mut s = String::new();
        self.0.push_occupancy(&mut s);
        assert(s@ =~= keys_text(self.slots()));
        s
    }
}

// -------------------------------------
//               TABLES
// -------------------------------------
/// An append-only array of the values of one kind, referenced by `Key`s.
pub struct Table<C> {
    table: Vec<C>,
}

impl<C> View for Table<C> {
    type V = Seq<C>;

    closed spec fn view(&self) -> Seq<C> {
        self.table@
    }
}

impl<C> Table<C> {
    /// The value that `key` refers to, if it refers to one that the table has.
    pub open spec fn lookup(&self, key: &Key<C>) -> Option<C> {
        if 1 <= key.slot() <= self@.len() {
            Some(self@[key.slot() - 1])
        } else {
            None
        }
    }

    /// The table without values.
    pub fn new() -> (r: Self)
        ensures
            r@ == Seq::<C>::empty(),
    {
        Table { table: Vec::new() }
    }

    /// How many values the table holds.
    pub fn len(&self) -> (n: usize)
        ensures
            n == self@.len(),
    {
        self.table.len()
    }

    /// The table that holds `values`, in their order.
    pub fn from_vec(values: Vec<C>) -> (r: Self)
        ensures
            r@ == values@,
    {
        Table { table: values }
    }

    /// The values of the table, in their order.
    pub fn into_vec(self) -> (values: Vec<C>)
        ensures
            values@ == self@,
    {
        self.table
    }

    /// The values of the table, in their order.
    pub fn as_slice(&self) -> (values: &[C])
        ensures
            values@ == self@,
    {
        self.table.as_slice()
    }

    /// Appends `c` and returns its position, counted from 1.
    pub fn store(&mut self, c: C) -> (position: usize)
        ensures
            final(self)@ == old(self)@.push(c),
            position == old(self)@.len() + 1,
    {
        self.table.push(c);
        self.table.len()
    }

    /// The value that `key` refers to: none for a key that refers to nothing,
    /// an error for one that refers to a position that the table does not have.
    pub fn get(&self, key: &Key<C>) -> (r: Result<Option<&C>, Error>)
        ensures
            key.slot() == 0 ==> r == Ok::<Option<&C>, Error>(None),
            1 <= key.slot() <= self@.len() ==> r == Ok::<Option<&C>, Error>(
                Some(&self@[key.slot() - 1]),
            ),
            key.slot() > self@.len() ==> r == Err::<Option<&C>, Error>(Error::DanglingKey),
    {
        let raw: u16 = key.raw();
        if raw == 0 {
            Ok(None)
        } else {
            let position: usize = raw as usize;
            if position <= self.table.len() {
                Ok(Some(&self.table[position - 1]))
            } else {
                Err(Error::DanglingKey)
            }
        }
    }
}

/// A list of tables, one per table kind, in declared order: `()` or
/// `(Table<C>, Tail)`.
pub trait Tables: Sized {
    /// The keys into these tables that a record carries.
    type Keys: Keys;

    /// The values of one node for these kinds: `()` or `(Option<C>, Tail)`.
    type Values;

    /// How many values each table holds, in declared order.
    spec fn lens(&self) -> Seq<nat>;

    /// Which kinds a node has a value for, in declared order.
    spec fn present(values: &Self::Values) -> Seq<bool>;

    /// The values that `keys` refer to: none for a key that refers to nothing.
    spec fn resolve(&self, keys: &Self::Keys) -> Self::Values;

    /// There is one table per kind.
    proof fn lemma_lens_len(&self)
        ensures
            self.lens().len() == Self::Keys::arity(),
    ;

    /// A node has one optional value per kind.
    proof fn lemma_present_len(values: &Self::Values)
        ensures
            Self::present(values).len() == Self::Keys::arity(),
    ;

    /// Keys that refer to nothing resolve to no values.
    proof fn lemma_resolve_vacant(&self, keys: &Self::Keys)
        requires
            keys.slots() == Seq::new(Self::Keys::arity(), |i: int| 0nat),
        ensures
            Self::present(&self.resolve(keys)) == Seq::new(Self::Keys::arity(), |i: int| false),
    ;

    /// The tables without values.
    fn new() -> (r: Self)
        ensures
            r.lens() == Seq::new(Self::Keys::arity(), |i: int| 0nat),
    ;

    /// How many kinds the list has, as far as a `usize` can tell.
    fn count() -> (n: usize)
        ensures
            n == saturated(Self::Keys::arity()),
    ;

    /// Whether the values of one node can be stored with every key still able
    /// to address its table.
    fn has_room(&self, values: &Self::Values) -> (b: bool)
        ensures
            b == room_for(self.lens(), Self::present(values)),
    ;

    /// Stores the values of one node, each at the end of the table of its kind,
    /// and returns the keys that refer to them. Values stored before stay where
    /// they are.
    fn insert_entity_components(&mut self, values: Self::Values) -> (keys: Self::Keys)
        requires
            room_for(old(self).lens(), Self::present(&values)),
        ensures
            final(self).lens() == grown(old(self).lens(), Self::present(&values)),
            keys.slots() == issued(old(self).lens(), Self::present(&values)),
            final(self).resolve(&keys) == values,
            forall|k: Self::Keys|
                in_range(k.slots(), old(self).lens()) ==> #[trigger] final(self).resolve(&k)
                    == old(self).resolve(&k),
    ;

    /// How many values the table of the kind at `index` holds; none for an
    /// index that stands for no kind.
    fn component_count(&self, index: usize) -> (n: usize)
        ensures
            n == held(self.lens(), index),
    ;
}

impl Tables for () {
    type Keys = ();

    type Values = ();

    open spec fn lens(&self) -> Seq<nat> {
        Seq::empty()
    }

    open spec fn present(values: &()) -> Seq<bool> {
        Seq::empty()
    }

    open spec fn resolve(&self, keys: &()) -> () {
        ()
    }

    proof fn lemma_lens_len(&self) {
    }

    proof fn lemma_present_len(values: &()) {
    }

    proof fn lemma_resolve_vacant(&self, keys: &()) {
        assert(Seq::<bool>::empty() =~= Seq::new(0, |i: int| false));
    }

    fn new() -> (r: Self) {
        assert(Seq::<nat>::empty() =~= Seq::new(0, |i: int| 0nat));
        ()
    }

    fn count() -> (n: usize) {
        0
    }

    fn has_room(&self, values: &()) -> (b: bool) {
        true
    }

    fn insert_entity_components(&mut self, values: ()) -> (keys: ()) {
        assert(self.lens() =~= grown(old(self).lens(), Self::present(&values)));
        assert(().slots() =~= issued(old(self).lens(), Self::present(&values)));
        ()
    }

    fn component_count(&self, index: usize) -> (n: usize) {
        0
    }
}

impl<Hk, Tt: Tables> Tables for (Table<Hk>, Tt) {
    type Keys = (Key<Hk>, Tt::Keys);

    type Values = (Option<Hk>, Tt::Values);

    open spec fn lens(&self) -> Seq<nat> {
        seq![self.0@.len()] + self.1.lens()
    }

    open spec fn present(values: &(Option<Hk>, Tt::Values)) -> Seq<bool> {
        seq![values.0.is_some()] + Tt::present(&values.1)
    }

    open spec fn resolve(&self, keys: &(Key<Hk>, Tt::Keys)) -> (Option<Hk>, Tt::Values) {
        (self.0.lookup(&keys.0), self.1.resolve(&keys.1))
    }

    proof fn lemma_lens_len(&self) {
        self.1.lemma_lens_len();
    }

    proof fn lemma_present_len(values: &(Option<Hk>, Tt::Values)) {
        Tt::lemma_present_len(&values.1);
    }

    proof fn lemma_resolve_vacant(&self, keys: &(Key<Hk>, Tt::Keys)) {
        let vacant = Seq::new(Self::Keys::arity(), |i: int| 0nat);
        let rest = Seq::new(Tt::Keys::arity(), |i: int| 0nat);
        keys.1.lemma_slots_len();
        assert(keys.slots()[0] == 0);
        assert(keys.1.slots() =~= rest) by {
            assert forall|i: int| 0 <= i < rest.len() implies keys.1.slots()[i] == rest[i] by {
                assert(keys.slots()[i + 1] == 0);
            }
        }
        self.1.lemma_resolve_vacant(&keys.1);
        assert(Self::present(&self.resolve(keys)) =~= Seq::new(
            Self::Keys::arity(),
            |i: int| false,
        ));
    }

    fn new() -> (r: Self) {
        let r = (Table::new(), Tt::new());
        assert(r.lens() =~= Seq::new(Self::Keys::arity(), |i: int| 0nat));
        r
    }

    fn count() -> (n: usize) {
        let rest: usize = Tt::count();
        if rest < usize::MAX {
            1 + rest
        } else {
            rest
        }
    }

    fn has_room(&self, values: &(Option<Hk>, Tt::Values)) -> (b: bool) {
        let head: bool = values.0.is_none() || self.0.len() < 65535;
        let tail: bool = self.1.has_room(&values.1);
        proof {
            self.1.lemma_lens_len();
            Tt::lemma_present_len(&values.1);
            let lens = self.lens();
            let present = Self::present(values);
            let tl = self.1.lens();
            let tp = Tt::present(&values.1);
            if head && tail {
                assert forall|k: int|
                    0 <= k < lens.len() && k < present.len() && present[k] implies lens[k]
                    < MAX_INDEX by {
                    if k > 0 {
                        assert(lens[k] == tl[k - 1]);
                        assert(present[k] == tp[k - 1]);
                    }
                }
            } else if !head {
                assert(present[0] && lens[0] >= MAX_INDEX);
            } else {
                let k = choose|k: int|
                    0 <= k < tl.len() && k < tp.len() && tp[k] && !(tl[k] < MAX_INDEX);
                assert(lens[k + 1] == tl[k]);
                assert(present[k + 1] == tp[k]);
            }
        }
        head && tail
    }

    fn insert_entity_components(&mut self, values: (Option<Hk>, Tt::Values)) -> (keys: (
        Key<Hk>,
        Tt::Keys,
    )) {
        let ghost lens = self.lens();
        let ghost present = Self::present(&values);
        proof {
            self.1.lemma_lens_len();
            Tt::lemma_present_len(&values.1);
            assert(present[0] == values.0.is_some());
            assert(lens[0] == self.0@.len());
            assert forall|k: int|
                0 <= k < self.1.lens().len() && k < Tt::present(&values.1).len() && Tt::present(
                    &values.1,
                )[k] implies self.1.lens()[k] < MAX_INDEX by {
                assert(lens[k + 1] == self.1.lens()[k]);
                assert(present[k + 1] == Tt::present(&values.1)[k]);
            }
        }
        let (head, tail) = values;
        let position: Option<usize> = match head {
            None => None,
            Some(c) => Some(self.0.store(c)),
        };
        let head_key: Key<Hk> = Key::from_index(position).unwrap();
        let tail_keys: Tt::Keys = self.1.insert_entity_components(tail);
        let keys = (head_key, tail_keys);
        proof {
            assert(self.lens() =~= grown(lens, present));
            assert(keys.slots() =~= issued(lens, present));
            assert forall|k: Self::Keys| in_range(k.slots(), lens) implies #[trigger] self.resolve(
                &k,
            ) == old(self).resolve(&k) by {
                k.1.lemma_slots_len();
                assert(k.slots()[0] <= lens[0]);
                assert(in_range(k.1.slots(), old(self).1.lens())) by {
                    assert forall|j: int| 0 <= j < k.1.slots().len() implies k.1.slots()[j] <= old(
                        self,
                    ).1.lens()[j] by {
                        assert(k.slots()[j + 1] <= lens[j + 1]);
                    }
                }
            }
        }
        keys
    }

    fn component_count(&self, index: usize) -> (n: usize) {
        if index == 0 {
            self.0.len()
        } else {
            proof {
                self.1.lemma_lens_len();
                if index < self.lens().len() {
                    assert(self.lens()[index as int] == self.1.lens()[index - 1]);
                }
            }
            self.1.component_count(index - 1)
        }
    }
}

/// A list of tables from which the values that keys refer to can be borrowed
/// for the time `'a`.
pub trait Lookup<'a>: Tables + 'a {
    /// The values of one node, borrowed from the tables: `()` or
    /// `(Option<&C>, Tail)`.
    type Refs;

    /// The values that the references point to.
    spec fn seen(refs: Self::Refs) -> Self::Values;

    /// The values that `keys` refer to, where each key is vacant or refers to a
    /// position that its table has; nothing where one does not.
    fn fetch(&'a self, keys: &Self::Keys) -> (r: Option<Self::Refs>)
        ensures
            r is Some <==> in_range(keys.slots(), self.lens()),
            r is Some ==> Self::seen(r->Some_0) == self.resolve(keys),
    ;
}

impl<'a> Lookup<'a> for () {
    type Refs = ();

    open spec fn seen(refs: ()) -> () {
        ()
    }

    fn fetch(&'a self, keys: &()) -> (r: Option<()>) {
        Some(())
    }
}

impl<'a, Hk: 'a, Tt: Lookup<'a>> Lookup<'a> for (Table<Hk>, Tt) {
    type Refs = (Option<&'a Hk>, Tt::Refs);

    open spec fn seen(refs: (Option<&'a Hk>, Tt::Refs)) -> (Option<Hk>, Tt::Values) {
        (
            match refs.0 {
                Some(value) => Some(*value),
                None => None,
            },
            Tt::seen(refs.1),
        )
    }

    fn fetch(&'a self, keys: &(Key<Hk>, Tt::Keys)) -> (r: Option<(Option<&'a Hk>, Tt::Refs)>) {
        proof {
            let slots = keys.slots();
            let lens = self.lens();
            let ts = keys.1.slots();
            let tl = self.1.lens();
            if slots[0] <= lens[0] && in_range(ts, tl) {
                assert forall|k: int| 0 <= k < slots.len() implies slots[k] <= lens[k] by {
                    if k > 0 {
                        assert(slots[k] == ts[k - 1]);
                        assert(lens[k] == tl[k - 1]);
                    }
                }
            } else if slots[0] <= lens[0] {
                if ts.len() == tl.len() {
                    let k = choose|k: int| 0 <= k < ts.len() && !(ts[k] <= tl[k]);
                    assert(slots[k + 1] == ts[k]);
                    assert(lens[k + 1] == tl[k]);
                }
            }
        }
        let head: Option<&'a Hk> = match self.0.get(&keys.0) {
            Ok(head) => head,
            Err(_) => {
                return None;
            },
        };
        match self.1.fetch(&keys.1) {
            Some(tail) => Some((head, tail)),
            None => None,
        }
    }
}

/// The tables of one archive.
pub struct TableStorage<Ts> {
    tables: Ts,
}

impl<Ts: Tables> TableStorage<Ts> {
    /// How many values each table holds, in declared order.
    pub closed spec fn lens(&self) -> Seq<nat> {
        self.tables.lens()
    }

    /// The values that `keys` refer to: none for a key that refers to nothing.
    pub closed spec fn resolve(&self, keys: &KeyStorage<Ts::Keys>) -> Ts::Values {
        self.tables.resolve(&keys.0)
    }

    /// The tables themselves.
    pub closed spec fn inner(&self) -> Ts {
        self.tables
    }

    /// Whether `later` is what these tables can become by storing more values:
    /// no table is shorter, and every key that was in range refers to the value
    /// that it referred to.
    pub open spec fn extends_to(&self, later: &Self) -> bool {
        &&& later.lens().len() == self.lens().len()
        &&& forall|k: int| 0 <= k < self.lens().len() ==> self.lens()[k] <= #[trigger] later.lens()[k]
        &&& forall|keys: KeyStorage<Ts::Keys>|
            in_range(keys.slots(), self.lens()) ==> #[trigger] later.resolve(&keys) == self.resolve(
                &keys,
            )
    }

    /// There is one table per kind.
    pub proof fn lemma_lens_len(&self)
        ensures
            self.lens().len() == Ts::Keys::arity(),
    {
        self.tables.lemma_lens_len();
    }

    /// What `lens` and `resolve` say in terms of the tables themselves.
    pub proof fn lemma_inner(&self, keys: &KeyStorage<Ts::Keys>)
        ensures
            self.lens() == self.inner().lens(),
            self.resolve(keys) == self.inner().resolve(&keys.0),
    {
    }

    /// Keys that refer to nothing resolve to no values, whatever the tables
    /// hold: position 0 is no position of a table.
    pub proof fn lemma_vacant_keys_resolve_to_nothing(&self, keys: &KeyStorage<Ts::Keys>)
        requires
            keys.slots() == Seq::new(Ts::Keys::arity(), |i: int| 0nat),
        ensures
            Ts::present(&self.resolve(keys)) == Seq::new(Ts::Keys::arity(), |i: int| false),
    {
        self.lemma_inner(keys);
        self.tables.lemma_resolve_vacant(&keys.0);
    }

    /// Storage with empty tables.
    pub fn new() -> (r: Self)
        ensures
            r.lens() == Seq::new(Ts::Keys::arity(), |i: int| 0nat),
    {
        TableStorage { tables: Ts::new() }
    }

    /// The tables, to read values from.
    pub fn tables(&self) -> (r: &Ts)
        ensures
            *r == self.inner(),
    {
        &self.tables
    }

    /// Storage with the given tables.
    pub fn from_tables(tables: Ts) -> (r: Self)
        ensures
            r.inner() == tables,
    {
        TableStorage { tables }
    }

    /// The tables, given up by the storage.
    pub fn into_tables(self) -> (r: Ts)
        ensures
            r == self.inner(),
    {
        self.tables
    }

    /// Stores the values of one node and returns the keys that refer to them; or
    /// stores nothing and reports that a table is full.
    pub fn insert_values(&mut self, values: Ts::Values) -> (r: Result<
        KeyStorage<Ts::Keys>,
        Error,
    >)
        ensures
            old(self).extends_to(final(self)),
            room_for(old(self).lens(), Ts::present(&values)) ==> {
                &&& r is Ok
                &&& final(self).lens() == grown(old(self).lens(), Ts::present(&values))
                &&& r->Ok_0.slots() == issued(old(self).lens(), Ts::present(&values))
                &&& final(self).resolve(&r->Ok_0) == values
            },
            !room_for(old(self).lens(), Ts::present(&values)) ==> {
                &&& r == Err::<KeyStorage<Ts::Keys>, Error>(Error::TableFull)
                &&& *final(self) == *old(self)
            },
    {
        proof {
            self.tables.lemma_lens_len();
            Ts::lemma_present_len(&values);
        }
        if self.tables.has_room(&values) {
            let keys = self.tables.insert_entity_components(values);
            proof {
                assert forall|k: KeyStorage<Ts::Keys>|
                    in_range(k.slots(), old(self).lens()) implies #[trigger] self.resolve(&k)
                    == old(self).resolve(&k) by {
                    assert(self.tables.resolve(&k.0) == old(self).tables.resolve(&k.0));
                }
            }
            Ok(KeyStorage(keys))
        } else {
            Err(Error::TableFull)
        }
    }

    /// The values that `keys` refer to, borrowed from the tables: none for a key
    /// that refers to nothing. Fails where a key refers to a position that its
    /// table does not have.
    pub fn fetch<'a>(&'a self, keys: &KeyStorage<Ts::Keys>) -> (r: Result<Ts::Refs, Error>) where
        Ts: Lookup<'a>,

        ensures
            in_range(keys.slots(), self.lens()) ==> r is Ok && Ts::seen(r->Ok_0) == self.resolve(
                keys,
            ),
            !in_range(keys.slots(), self.lens()) ==> r is Err && r->Err_0 == Error::DanglingKey,
    {
        match self.tables.fetch(&keys.0) {
            Some(refs) => Ok(refs),
            None => Err(Error::DanglingKey),
        }
    }

    /// Whether each key is vacant or refers to a position that its table has.
    pub fn holds<'a>(&'a self, keys: &KeyStorage<Ts::Keys>) -> (b: bool) where Ts: Lookup<'a>
        ensures
            b == in_range(keys.slots(), self.lens()),
    {
        self.tables.fetch(&keys.0).is_some()
    }

    /// How many kinds are stored in tables.
    pub fn component_count(&self) -> (n: usize)
        ensures
            n == saturated(Ts::Keys::arity()),
    {
        Ts::count()
    }

    /// How many values the table of the kind at `index` holds; none for an
    /// index that stands for no kind.
    pub fn component_count_of(&self, index: usize) -> (n: usize)
        ensures
            n == held(self.lens(), index),
    {
        self.tables.component_count(index)
    }
}

} // verus!
