//! Names: decimal numerals, supplies of fresh names, and sets and maps keyed by name.

use vstd::prelude::*;
use crate::ir::{names_of, Name};

verus! {

/// The character for a decimal digit.
pub open spec fn digit(d: nat) -> char {
    (48 + d) as char
}

/// The decimal numeral of a number, without leading zeros.
pub open spec fn decimal(n: nat) -> Name
    decreases n,
{
    if n < 10 {
        seq![digit(n)]
    } else {
        decimal(n / 10).push(digit(n % 10))
    }
}

/// The numeral of a signed number: a minus sign in front of a negative one.
pub open spec fn signed_decimal(n: int) -> Name {
    if n < 0 {
        "-"@ + decimal((-n) as nat)
    } else {
        decimal(n as nat)
    }
}

fn digit_text(d: u8) -> (r: &'static str)
    requires
        d < 10,
    ensures
        r@ == seq![digit(d as nat)],
{
    proof {
        reveal_strlit("0");
        reveal_strlit("1");
        reveal_strlit("2");
        reveal_strlit("3");
        reveal_strlit("4");
        reveal_strlit("5");
        reveal_strlit("6");
        reveal_strlit("7");
        reveal_strlit("8");
        reveal_strlit("9");
    }
    let r: &'static str = match d {
        0 => "0",
        1 => "1",
        2 => "2",
        3 => "3",
        4 => "4",
        5 => "5",
        6 => "6",
        7 => "7",
        8 => "8",
        _ => "9",
    };
    assert(r@ =~= seq![digit(d as nat)]);
    r
}

/// Writes a number in decimal.
pub fn decimal_text(n: u64) -> (r: String)
    ensures
        r@ == decimal(n as nat),
    decreases n,
{
    if n < 10 {
        digit_text(n as u8).to_owned()
    } else {
        let mut r: String = decimal_text(n / 10);
        r.append(digit_text((n % 10) as u8));
        assert(r@ =~= decimal(n as nat));
        r
    }
}

/// Writes a signed number in decimal.
pub fn signed_decimal_text(n: i64) -> (r: String)
    ensures
        r@ == signed_decimal(n as int),
{
    if n < 0 {
        let mut r: String = "-".to_owned();
        let m: u64 = if n == i64::MIN {
            0x8000_0000_0000_0000u64
        } else {
            (-n) as u64
        };
        let digits: String = decimal_text(m);
        r.append(digits.as_str());
        r
    } else {
        decimal_text(n as u64)
    }
}

/// Joins two texts.
pub fn join_text(a: &str, b: &str) -> (r: String)
    ensures
        r@ == a@ + b@,
{
    let mut r: String = a.to_owned();
    r.append(b);
    r
}

/// Two numbers with the same numeral are the same number.
pub proof fn decimal_injective(a: nat, b: nat)
    requires
        decimal(a) == decimal(b),
    ensures
        a == b,
    decreases a,
{
    decimal_nonempty(a);
    decimal_nonempty(b);
    if a < 10 && b < 10 {
        assert(decimal(a)[0] == digit(a) && decimal(b)[0] == digit(b));
        assert(digit(a) as nat == 48 + a && digit(b) as nat == 48 + b);
    } else if a < 10 {
        decimal_nonempty(b / 10);
        assert(decimal(a).len() == 1);
        assert(decimal(b).len() == decimal(b / 10).len() + 1);
    } else if b < 10 {
        decimal_nonempty(a / 10);
        assert(decimal(b).len() == 1);
        assert(decimal(a).len() == decimal(a / 10).len() + 1);
    } else {
        assert(decimal(a).last() == digit(a % 10) && decimal(b).last() == digit(b % 10));
        assert(digit(a % 10) as nat == 48 + a % 10 && digit(b % 10) as nat == 48 + b % 10);
        assert(decimal(a).drop_last() =~= decimal(a / 10));
        assert(decimal(b).drop_last() =~= decimal(b / 10));
        decimal_injective(a / 10, b / 10);
    }
}

/// A numeral has at least one digit.
pub proof fn decimal_nonempty(n: nat)
    ensures
        decimal(n).len() >= 1,
    decreases n,
{
    if n >= 10 {
        decimal_nonempty(n / 10);
    }
}

/// A numeral starts with a digit.
pub proof fn decimal_starts_with_digit(n: nat)
    ensures
        decimal(n).len() >= 1,
        '0' <= decimal(n)[0] <= '9',
    decreases n,
{
    if n >= 10 {
        decimal_starts_with_digit(n / 10);
        assert(decimal(n)[0] == decimal(n / 10)[0]);
    }
}

/// A numeral holds nothing but digits.
pub proof fn decimal_is_digits(n: nat, i: int)
    requires
        0 <= i < decimal(n).len(),
    ensures
        '0' <= decimal(n)[i] <= '9',
    decreases n,
{
    if n >= 10 {
        if i < decimal(n / 10).len() {
            decimal_is_digits(n / 10, i);
        }
    }
}

/// The number that a list of decimal digits stands for, the units first.
pub open spec fn value_of(ds: Seq<u8>) -> nat
    decreases ds.len(),
{
    if ds.len() == 0 {
        0
    } else {
        ds[0] as nat + 10 * value_of(ds.drop_first())
    }
}

/// A supply of fresh names. It counts the names it has given out, without bound.
pub struct NameSupply {
    /// The count in decimal, the units first.
    digits: Vec<u8>,
}

impl NameSupply {
    /// How many names have been given out.
    pub closed spec fn view(self) -> nat {
        value_of(self.digits@)
    }

    #[verifier::type_invariant]
    spec fn canonical(self) -> bool {
        canonical_digits(self.digits@)
    }

    /// A supply that has given out no names.
    pub fn new() -> (r: Self)
        ensures
            r@ == 0,
    {
        let digits: Vec<u8> = Vec::new();
        NameSupply { digits }
    }

    /// Gives out the next name: `prefix` followed by its number, counting from one.
    pub fn fresh(&mut self, prefix: &str) -> (r: String)
        ensures
            final(self)@ == old(self)@ + 1,
            r@ == prefix@ + decimal(final(self)@),
    {
        proof {
            use_type_invariant(&*self);
        }
        let mut digits: Vec<u8> = Vec::new();
        std::mem::swap(&mut digits, &mut self.digits);
        increment(&mut digits);
        let text: String = digits_text(&digits);
        self.digits = digits;
        join_text(prefix, text.as_str())
    }
}

/// Whether digits are decimal and the leading one is not zero.
spec fn canonical_digits(ds: Seq<u8>) -> bool {
    &&& forall|i: int| 0 <= i < ds.len() ==> #[trigger] ds[i] < 10
    &&& (ds.len() > 0 ==> ds.last() != 0)
}

/// A canonical list that is not empty stands for a positive number, and its tail is
/// canonical.
proof fn canonical_tail(ds: Seq<u8>)
    requires
        canonical_digits(ds),
        ds.len() > 0,
    ensures
        canonical_digits(ds.drop_first()),
        value_of(ds) > 0,
    decreases ds.len(),
{
    let rest = ds.drop_first();
    assert forall|i: int| 0 <= i < rest.len() implies #[trigger] rest[i] < 10 by {
        assert(rest[i] == ds[i + 1]);
    }
    if rest.len() > 0 {
        assert(rest.last() == ds.last());
        canonical_tail(rest);
    } else {
        assert(ds.last() == ds[0]);
    }
}

/// Adds one, starting at place `from`, to the digits from there on.
fn increment_from(ds: &mut Vec<u8>, from: usize)
    requires
        canonical_digits(old(ds)@),
        from <= old(ds)@.len(),
    ensures
        canonical_digits(final(ds)@),
        final(ds)@.len() >= old(ds)@.len(),
        final(ds)@.take(from as int) == old(ds)@.take(from as int),
        value_of(final(ds)@.skip(from as int)) == value_of(old(ds)@.skip(from as int)) + 1,
    decreases old(ds)@.len() - from,
{
    let ghost before: Seq<u8> = ds@;
    if from == ds.len() {
        ds.push(1);
        assert(ds@.skip(from as int) =~= seq![1u8]);
        assert(before.skip(from as int) =~= Seq::<u8>::empty());
        assert(ds@.skip(from as int).drop_first() =~= Seq::<u8>::empty());
        assert(value_of(seq![1u8]) == 1) by {
            assert(seq![1u8].drop_first() =~= Seq::<u8>::empty());
            assert(value_of(Seq::<u8>::empty()) == 0);
        }
        assert(ds@.take(from as int) =~= before.take(from as int));
    } else if ds[from] < 9 {
        let d: u8 = ds[from];
        ds.set(from, d + 1);
        assert(ds@.skip(from as int).drop_first() =~= before.skip(from as int).drop_first());
        assert(ds@.take(from as int) =~= before.take(from as int));
    } else {
        increment_from(ds, from + 1);
        assert(ds@[from as int] == before[from as int]) by {
            assert(ds@.take(from + 1)[from as int] == before.take(from + 1)[from as int]);
        }
        let ghost mid: Seq<u8> = ds@;
        proof {
            assert(mid.len() > from + 1) by {
                if mid.len() == from + 1 {
                    assert(mid.skip(from + 1) =~= Seq::<u8>::empty());
                }
            }
        }
        ds.set(from, 0);
        assert(ds@.skip(from as int).drop_first() =~= mid.skip(from + 1));
        assert(before.skip(from as int).drop_first() =~= before.skip(from + 1));
        assert(ds@.take(from as int) =~= before.take(from as int)) by {
            assert forall|i: int| 0 <= i < from implies ds@[i] == before[i] by {
                assert(mid.take(from + 1)[i] == before.take(from + 1)[i]);
            }
        }
        assert(ds@.last() == mid.last());
    }
}

fn increment(ds: &mut Vec<u8>)
    requires
        canonical_digits(old(ds)@),
    ensures
        canonical_digits(final(ds)@),
        value_of(final(ds)@) == value_of(old(ds)@) + 1,
{
    assert(ds@.skip(0) =~= ds@);
    increment_from(ds, 0);
    assert(ds@.skip(0) =~= ds@);
}

/// Writes digits, the leading one first.
fn digits_text(ds: &Vec<u8>) -> (r: String)
    requires
        canonical_digits(ds@),
        ds@.len() > 0,
    ensures
        r@ == decimal(value_of(ds@)),
{
    let mut i: usize = ds.len();
    let mut r: String = String::new();
    proof {
        assert(ds@.skip(i as int) =~= Seq::<u8>::empty());
    }
    while i > 0
        invariant
            i <= ds@.len(),
            canonical_digits(ds@),
            canonical_digits(ds@.skip(i as int)),
            i == ds@.len() ==> r@ == Seq::<char>::empty(),
            i < ds@.len() ==> r@ == decimal(value_of(ds@.skip(i as int))),
        decreases i,
    {
        let ghost above: Seq<u8> = ds@.skip(i as int);
        i -= 1;
        let ghost here: Seq<u8> = ds@.skip(i as int);
        assert(here.drop_first() =~= above);
        assert(here[0] == ds@[i as int]);
        assert(canonical_digits(here)) by {
            assert forall|j: int| 0 <= j < here.len() implies #[trigger] here[j] < 10 by {
                assert(here[j] == ds@[i + j]);
            }
            assert(here.last() == ds@.last());
        }
        r.append(digit_text(ds[i]));
        proof {
            if above.len() > 0 {
                canonical_tail(above);
                let v: nat = value_of(above);
                let n: nat = value_of(here);
                assert(n == ds@[i as int] as nat + 10 * v);
                assert(n / 10 == v && n % 10 == ds@[i as int] as nat);
                assert(r@ =~= decimal(n));
            } else {
                assert(value_of(above) == 0);
                assert(value_of(here) == ds@[i as int] as nat);
                assert(r@ =~= decimal(value_of(here)));
            }
        }
    }
    assert(ds@.skip(0) =~= ds@);
    r
}

/// Whether a list of names holds `name`.
pub fn contains_name(v: &Vec<String>, name: &String) -> (r: bool)
    ensures
        r == names_of(v@).contains(name@),
{
    let mut i: usize = 0;
    while i < v.len()
        invariant
            i <= v@.len(),
            forall|j: int| 0 <= j < i ==> (#[trigger] v@[j])@ != name@,
        decreases v@.len() - i,
    {
        if v[i] == *name {
            assert(names_of(v@)[i as int] == name@);
            return true;
        }
        i += 1;
    }
    assert forall|j: int| 0 <= j < names_of(v@).len() implies #[trigger] names_of(v@)[j]
        != name@ by {
        assert(v@[j]@ != name@);
    }
    false
}

/// A set of names without those in a list.
pub open spec fn without(names: Set<Name>, gone: Seq<Name>) -> Set<Name>
    decreases gone.len(),
{
    if gone.len() == 0 {
        names
    } else {
        without(names, gone.drop_last()).remove(gone.last())
    }
}

/// What [`without`] leaves.
pub proof fn without_leaves(names: Set<Name>, gone: Seq<Name>, name: Name)
    ensures
        without(names, gone).contains(name) == (names.contains(name) && !gone.contains(name)),
    decreases gone.len(),
{
    if gone.len() > 0 {
        without_leaves(names, gone.drop_last(), name);
        assert(gone =~= gone.drop_last().push(gone.last()));
        if gone.drop_last().contains(name) {
            let i = gone.drop_last().index_of(name);
            assert(gone[i] == name);
        }
        if gone.contains(name) && name != gone.last() {
            let i = gone.index_of(name);
            assert(gone.drop_last()[i] == name);
        }
    }
}

/// Taking an element out of a list without duplicates takes it out of the set.
proof fn removed_from_set(v: Seq<Name>, i: int)
    requires
        0 <= i < v.len(),
        v.no_duplicates(),
    ensures
        v.remove(i).to_set() == v.to_set().remove(v[i]),
        v.remove(i).no_duplicates(),
{
    let r = v.remove(i);
    assert forall|n: Name| r.to_set().contains(n) == v.to_set().remove(v[i]).contains(n) by {
        if r.contains(n) {
            let j = r.index_of(n);
            assert(v[if j < i { j } else { j + 1 }] == n);
        }
        if v.contains(n) && n != v[i] {
            let j = v.index_of(n);
            assert(r[if j < i { j } else { j - 1 }] == n);
        }
    }
    assert(r.to_set() =~= v.to_set().remove(v[i]));
}

/// A set of names.
#[derive(Debug)]
pub struct NameSet {
    items: Vec<String>,
}

impl NameSet {
    pub closed spec fn view(self) -> Set<Name> {
        names_of(self.items@).to_set()
    }

    /// Each name is held once.
    #[verifier::type_invariant]
    spec fn distinct(self) -> bool {
        names_of(self.items@).no_duplicates()
    }

    pub fn new() -> (r: Self)
        ensures
            r@ == Set::<Name>::empty(),
    {
        let items: Vec<String> = Vec::new();
        assert(names_of(items@).to_set() =~= Set::<Name>::empty());
        NameSet { items }
    }

    pub fn contains(&self, name: &String) -> (r: bool)
        ensures
            r == self@.contains(name@),
    {
        contains_name(&self.items, name)
    }

    pub fn insert(&mut self, name: String)
        ensures
            final(self)@ == old(self)@.insert(name@),
    {
        proof {
            use_type_invariant(&*self);
        }
        let ghost before: Seq<Name> = names_of(self.items@);
        if !contains_name(&self.items, &name) {
            let mut items: Vec<String> = Vec::new();
            std::mem::swap(&mut items, &mut self.items);
            items.push(name);
            proof {
                assert(items@ =~= old(self).items@.push(name));
                names_of_push(old(self).items@, name);
                to_set_push(before, name@);
            }
            self.items = items;
        } else {
            assert(before.to_set().insert(name@) =~= before.to_set());
        }
    }

    pub fn remove(&mut self, name: &String)
        ensures
            final(self)@ == old(self)@.remove(name@),
    {
        proof {
            use_type_invariant(&*self);
        }
        let ghost before: Seq<Name> = names_of(self.items@);
        let mut items: Vec<String> = copy_names(&self.items);
        let mut i: usize = 0;
        while i < items.len()
            invariant
                i <= items@.len(),
                names_of(items@) == before,
                before.no_duplicates(),
                forall|j: int| 0 <= j < i ==> #[trigger] before[j] != name@,
                before.len() == items@.len(),
                before == names_of(old(self).items@),
                *self == *old(self),
            decreases items@.len() - i,
        {
            assert(before[i as int] == items@[i as int]@);
            if items[i] == *name {
                let ghost held: Seq<String> = items@;
                let _gone: String = items.remove(i);
                proof {
                    assert(items@ == held.remove(i as int));
                    assert(names_of(items@) =~= before.remove(i as int));
                    removed_from_set(before, i as int);
                }
                self.items = items;
                return ;
            }
            i += 1;
        }
        assert(!before.contains(name@));
        assert(before.to_set().remove(name@) =~= before.to_set());
    }

    /// A copy without the names in a list.
    pub fn without(&self, names: &Vec<String>) -> (r: Self)
        ensures
            r@ == without(self@, names_of(names@)),
    {
        let ghost gone: Seq<Name> = names_of(names@);
        let mut r: NameSet = self.copy();
        let mut i: usize = 0;
        assert(gone.take(0) =~= Seq::<Name>::empty());
        while i < names.len()
            invariant
                i <= names@.len(),
                gone == names_of(names@),
                gone.len() == names@.len(),
                r@ == without(self@, gone.take(i as int)),
            decreases names@.len() - i,
        {
            r.remove(&names[i]);
            proof {
                assert(gone[i as int] == names@[i as int]@);
                assert(gone.take(i + 1).drop_last() =~= gone.take(i as int));
            }
            i += 1;
        }
        assert(gone.take(i as int) =~= gone);
        r
    }

    pub fn len(&self) -> (r: usize)
        ensures
            r == self@.len(),
    {
        proof {
            use_type_invariant(self);
            names_of(self.items@).unique_seq_to_set();
        }
        self.items.len()
    }

    pub fn is_empty(&self) -> (r: bool)
        ensures
            r == (self@ == Set::<Name>::empty()),
    {
        proof {
            if self.items@.len() == 0 {
                assert(self@ =~= Set::<Name>::empty());
            } else {
                assert(names_of(self.items@).contains(names_of(self.items@)[0]));
                assert(self@.contains(names_of(self.items@)[0]));
            }
        }
        self.items.len() == 0
    }

    pub fn copy(&self) -> (r: Self)
        ensures
            r@ == self@,
    {
        proof {
            use_type_invariant(self);
        }
        let items: Vec<String> = copy_names(&self.items);
        NameSet { items }
    }
}

/// Copies a list of names.
pub fn copy_names(v: &Vec<String>) -> (r: Vec<String>)
    ensures
        names_of(r@) == names_of(v@),
{
    let mut r: Vec<String> = Vec::new();
    let mut i: usize = 0;
    while i < v.len()
        invariant
            i <= v@.len(),
            r@.len() == i,
            forall|j: int| 0 <= j < i ==> #[trigger] r@[j] == v@[j],
        decreases v@.len() - i,
    {
        r.push(v[i].clone());
        i += 1;
    }
    assert(names_of(r@) =~= names_of(v@));
    r
}

pub proof fn names_of_push(v: Seq<String>, s: String)
    ensures
        names_of(v.push(s)) == names_of(v).push(s@),
{
    assert(names_of(v.push(s)) =~= names_of(v).push(s@));
}

proof fn to_set_push(s: Seq<Name>, a: Name)
    requires
        s.no_duplicates(),
        !s.contains(a),
    ensures
        s.push(a).to_set() == s.to_set().insert(a),
        s.push(a).no_duplicates(),
{
    let t = s.push(a);
    assert forall|x: Name| #[trigger] t.to_set().contains(x) == s.to_set().insert(a).contains(x) by {
        if s.contains(x) {
            let i = choose|i: int| 0 <= i < s.len() && s[i] == x;
            assert(t[i] == x);
        }
        if x == a {
            assert(t[s.len() as int] == a);
        }
    }
    assert(t.to_set() =~= s.to_set().insert(a));
    assert forall|i: int, j: int| 0 <= i < t.len() && 0 <= j < t.len() && i != j implies t[i]
        != t[j] by {
        if i == s.len() {
            assert(s.contains(s[j]));
        } else if j == s.len() {
            assert(s.contains(s[i]));
        }
    }
}

/// A map from names.
#[derive(Debug)]
pub struct NameMap<V> {
    keys: Vec<String>,
    values: Vec<V>,
}

/// The map that two parallel lists make up; a later entry hides an earlier one.
pub open spec fn map_of<V>(keys: Seq<Name>, values: Seq<V>) -> Map<Name, V>
    decreases keys.len(),
{
    if keys.len() == 0 {
        Map::empty()
    } else {
        map_of(keys.drop_last(), values.drop_last()).insert(keys.last(), values.last())
    }
}

impl<V> NameMap<V> {
    pub closed spec fn view(self) -> Map<Name, V> {
        map_of(names_of(self.keys@), self.values@)
    }

    /// The two lists go together, and each key is held once.
    #[verifier::type_invariant]
    spec fn paired(self) -> bool {
        &&& self.keys@.len() == self.values@.len()
        &&& names_of(self.keys@).no_duplicates()
    }

    pub fn new() -> (r: Self)
        ensures
            r@ == Map::<Name, V>::empty(),
    {
        let keys: Vec<String> = Vec::new();
        let values: Vec<V> = Vec::new();
        NameMap { keys, values }
    }

    /// The place of a key.
    fn find(&self, key: &String) -> (r: Option<usize>)
        ensures
            match r {
                Some(i) => i < self.keys@.len() && names_of(self.keys@)[i as int] == key@
                    && i < self.values@.len() && self@.dom().contains(key@) && self@[key@]
                    == self.values@[i as int],
                None => !names_of(self.keys@).contains(key@) && !self@.dom().contains(key@),
            },
    {
        proof {
            use_type_invariant(self);
        }
        let mut i: usize = 0;
        while i < self.keys.len()
            invariant
                i <= self.keys@.len(),
                self.keys@.len() == self.values@.len(),
                names_of(self.keys@).no_duplicates(),
                forall|j: int| 0 <= j < i ==> names_of(self.keys@)[j] != key@,
            decreases self.keys@.len() - i,
        {
            if self.keys[i] == *key {
                proof {
                    map_of_entry(names_of(self.keys@), self.values@, i as int);
                }
                return Some(i);
            }
            assert(names_of(self.keys@)[i as int] != key@);
            i += 1;
        }
        proof {
            map_of_absent(names_of(self.keys@), self.values@, key@);
        }
        None
    }

    pub fn get(&self, key: &String) -> (r: Option<&V>)
        ensures
            match r {
                Some(v) => self@.dom().contains(key@) && self@[key@] == *v,
                None => !self@.dom().contains(key@),
            },
    {
        match self.find(key) {
            Some(i) => Some(&self.values[i]),
            None => None,
        }
    }

    pub fn contains_key(&self, key: &String) -> (r: bool)
        ensures
            r == self@.dom().contains(key@),
    {
        self.find(key).is_some()
    }

    /// Sets the value of a key, whether or not it had one.
    pub fn insert(&mut self, key: String, value: V)
        ensures
            final(self)@ == old(self)@.insert(key@, value),
    {
        proof {
            use_type_invariant(&*self);
        }
        let ghost ks: Seq<Name> = names_of(self.keys@);
        let ghost vs: Seq<V> = self.values@;
        match self.find(&key) {
            Some(i) => {
                let mut whole: NameMap<V> = NameMap::new();
                std::mem::swap(&mut whole, self);
                let mut keys: Vec<String> = whole.keys;
                let mut values: Vec<V> = whole.values;
                values.set(i, value);
                proof {
                    map_of_update(ks, vs, i as int, value);
                }
                *self = NameMap { keys, values };
            },
            None => {
                let mut whole: NameMap<V> = NameMap::new();
                std::mem::swap(&mut whole, self);
                let mut keys: Vec<String> = whole.keys;
                let mut values: Vec<V> = whole.values;
                keys.push(key);
                values.push(value);
                proof {
                    names_of_push(old(self).keys@, key);
                    to_set_push(ks, key@);
                    assert(names_of(keys@).drop_last() =~= ks);
                    assert(values@.drop_last() =~= vs);
                }
                *self = NameMap { keys, values };
            },
        }
    }

    /// How many keys there are.
    pub fn len(&self) -> (r: usize)
        ensures
            r == self@.dom().len(),
            self@.dom().finite(),
    {
        proof {
            use_type_invariant(self);
            map_of_dom(names_of(self.keys@), self.values@);
            names_of(self.keys@).unique_seq_to_set();
        }
        self.keys.len()
    }
}

proof fn map_of_dom<V>(keys: Seq<Name>, values: Seq<V>)
    requires
        keys.len() == values.len(),
    ensures
        map_of(keys, values).dom() == keys.to_set(),
    decreases keys.len(),
{
    if keys.len() > 0 {
        map_of_dom(keys.drop_last(), values.drop_last());
        assert forall|x: Name|
            map_of(keys, values).dom().contains(x) == keys.to_set().contains(x) by {
            if keys.contains(x) {
                let i = choose|i: int| 0 <= i < keys.len() && keys[i] == x;
                if i < keys.len() - 1 {
                    assert(keys.drop_last()[i] == x);
                    assert(keys.drop_last().to_set().contains(x));
                }
            }
            if keys.drop_last().contains(x) {
                let i = choose|i: int| 0 <= i < keys.drop_last().len() && keys.drop_last()[i] == x;
                assert(keys[i] == x);
            }
            assert(keys[keys.len() - 1] == keys.last());
        }
        assert(map_of(keys, values).dom() =~= keys.to_set());
    } else {
        assert(map_of(keys, values).dom() =~= keys.to_set());
    }
}

proof fn map_of_entry<V>(keys: Seq<Name>, values: Seq<V>, i: int)
    requires
        keys.len() == values.len(),
        keys.no_duplicates(),
        0 <= i < keys.len(),
    ensures
        map_of(keys, values).dom().contains(keys[i]),
        map_of(keys, values)[keys[i]] == values[i],
    decreases keys.len(),
{
    if i < keys.len() - 1 {
        map_of_entry(keys.drop_last(), values.drop_last(), i);
        assert(keys[i] != keys.last());
    }
}

proof fn map_of_absent<V>(keys: Seq<Name>, values: Seq<V>, x: Name)
    requires
        keys.len() == values.len(),
        forall|j: int| 0 <= j < keys.len() ==> keys[j] != x,
    ensures
        !map_of(keys, values).dom().contains(x),
    decreases keys.len(),
{
    if keys.len() > 0 {
        map_of_absent(keys.drop_last(), values.drop_last(), x);
    }
}

proof fn map_of_update<V>(keys: Seq<Name>, values: Seq<V>, i: int, v: V)
    requires
        keys.len() == values.len(),
        keys.no_duplicates(),
        0 <= i < keys.len(),
    ensures
        map_of(keys, values.update(i, v)) == map_of(keys, values).insert(keys[i], v),
    decreases keys.len(),
{
    if i < keys.len() - 1 {
        map_of_update(keys.drop_last(), values.drop_last(), i, v);
        assert(values.update(i, v).drop_last() =~= values.drop_last().update(i, v));
        assert(keys[i] != keys.last());
        assert(map_of(keys, values.update(i, v)) =~= map_of(keys, values).insert(keys[i], v));
    } else {
        assert(values.update(i, v).drop_last() =~= values.drop_last());
        assert(map_of(keys, values.update(i, v)) =~= map_of(keys, values).insert(keys[i], v));
    }
}

} // verus!
