//! Moving values from one heap to another.

use vstd::prelude::*;
use super::error::{EvalError, Fault};
use super::heap::{cell_at, with_new, Cell, CellView, Cells, Contents, Heap};
use super::value::{portables, vals, Portable, PortableValue, Val, Value};

verus! {

/// A value with everything it reaches on the heap, or why it cannot leave the heap.
/// `depth` is how many constructed values may stand one inside another.
pub open spec fn detached(h: Cells, v: Val, depth: nat) -> Result<Portable, Fault>
    decreases depth, 0int,
{
    match v {
        Val::Int(n) => Ok(Portable::Int(n)),
        Val::Float(b) => Ok(Portable::Float(b)),
        Val::Bool(b) => Ok(Portable::Bool(b)),
        Val::Unit => Ok(Portable::Unit),
        Val::HeapRef(addr) => match cell_at(h, addr) {
            Ok(c) => match c.contents {
                Contents::Str(s) => Ok(Portable::Str(s)),
                Contents::Ctor(tag, fields) => if depth == 0 {
                    Err(Fault::CyclicBoundary)
                } else {
                    match detached_upto(h, fields, fields.len(), (depth - 1) as nat) {
                        Ok(ps) => Ok(Portable::Ctor(tag, ps)),
                        Err(e) => Err(e),
                    }
                },
            },
            Err(e) => Err(Fault::Heap(e)),
        },
        Val::Closure(_) => Err(Fault::ClosureBoundary),
        Val::Function(f) => Err(Fault::FunctionBoundary(f)),
        Val::Task(_) => Err(Fault::TaskBoundary),
        Val::Sender(s) => Ok(Portable::Sender(s)),
        Val::Receiver(r) => Ok(Portable::Receiver(r)),
        Val::Ref(_) => Err(Fault::RefBoundary),
    }
}

/// The first `n` of several values, detached in order.
pub open spec fn detached_upto(h: Cells, vs: Seq<Val>, n: nat, depth: nat) -> Result<
    Seq<Portable>,
    Fault,
>
    decreases depth, n + 1,
{
    if n == 0 || n > vs.len() {
        Ok(Seq::empty())
    } else {
        match detached_upto(h, vs, (n - 1) as nat, depth) {
            Err(e) => Err(e),
            Ok(ps) => match detached(h, vs[n - 1], depth) {
                Err(e) => Err(e),
                Ok(p) => Ok(ps.push(p)),
            },
        }
    }
}

/// A portable value stored on a heap, and the heap with it.
pub open spec fn placed(h: Cells, p: Portable) -> (Cells, Val)
    decreases p,
{
    match p {
        Portable::Int(n) => (h, Val::Int(n)),
        Portable::Float(b) => (h, Val::Float(b)),
        Portable::Str(s) => (with_new(h, Contents::Str(s)), Val::HeapRef(h.len() as usize)),
        Portable::Bool(b) => (h, Val::Bool(b)),
        Portable::Unit => (h, Val::Unit),
        Portable::Ctor(tag, fields) => {
            let (h2, vs) = placed_upto(h, fields, fields.len());
            (with_new(h2, Contents::Ctor(tag, vs)), Val::HeapRef(h2.len() as usize))
        },
        Portable::Sender(s) => (h, Val::Sender(s)),
        Portable::Receiver(r) => (h, Val::Receiver(r)),
    }
}

/// The first `n` of several portable values, stored in order.
pub open spec fn placed_upto(h: Cells, ps: Seq<Portable>, n: nat) -> (Cells, Seq<Val>)
    decreases ps, n,
{
    if n == 0 || n > ps.len() {
        (h, Seq::empty())
    } else {
        let (h2, vs) = placed_upto(h, ps, (n - 1) as nat);
        let (h3, v) = placed(h2, ps[n - 1]);
        (h3, vs.push(v))
    }
}

/// Whether a result of detaching is the modelled one.
pub open spec fn detaches(r: Result<PortableValue, EvalError>, m: Result<Portable, Fault>) -> bool {
    match r {
        Ok(p) => m == Ok::<Portable, Fault>(p@),
        Err(e) => m == Err::<Portable, Fault>(e@),
    }
}

/// Copies a value with everything that it reaches. No more constructed values stand one inside
/// another than the heap has cells, unless they form a cycle.
pub fn to_portable(heap: &Heap, value: &Value) -> (r: Result<PortableValue, EvalError>)
    ensures
        detaches(r, detached(heap@, value@, heap@.len())),
{
    detach(heap, value, heap.alloc_count())
}

fn detach(heap: &Heap, value: &Value, depth: usize) -> (r: Result<PortableValue, EvalError>)
    ensures
        detaches(r, detached(heap@, value@, depth as nat)),
    decreases depth,
{
    match value {
        Value::Int(n) => Ok(PortableValue::Int(*n)),
        Value::Float(b) => Ok(PortableValue::Float(*b)),
        Value::Bool(b) => Ok(PortableValue::Bool(*b)),
        Value::Unit => Ok(PortableValue::Unit),
        Value::HeapRef(addr) => match heap.read_any(*addr) {
            Ok(CellView::Str(s)) => Ok(PortableValue::Str(s.to_owned())),
            Ok(CellView::Ctor(tag, fields)) => {
                if depth == 0 {
                    return Err(EvalError::CyclicBoundary);
                }
                let mut ps: Vec<PortableValue> = Vec::new();
                assert(portables(ps@) =~= Seq::empty());
                let mut i: usize = 0;
                while i < fields.len()
                    invariant
                        i <= fields@.len(),
                        depth > 0,
                        detached_upto(heap@, vals(fields@), i as nat, (depth - 1) as nat) == Ok::<
                            Seq<Portable>,
                            Fault,
                        >(portables(ps@)),
                        value@ matches Val::HeapRef(a) && cell_at(heap@, a) is Ok && (cell_at(
                            heap@,
                            a,
                        )->Ok_0).contents == Contents::Ctor(tag@, vals(fields@)),
                    decreases fields@.len() - i,
                {
                    let ghost before: Seq<PortableValue> = ps@;
                    match detach(heap, &fields[i], depth - 1) {
                        Ok(p) => {
                            ps.push(p);
                            assert(portables(ps@) =~= portables(before).push(p@));
                        },
                        Err(e) => {
                            proof {
                                fails_from(
                                    heap@,
                                    vals(fields@),
                                    (i + 1) as nat,
                                    fields@.len(),
                                    (depth - 1) as nat,
                                );
                            }
                            return Err(e);
                        },
                    }
                    i += 1;
                }
                Ok(PortableValue::Ctor(tag.to_owned(), ps))
            },
            Err(e) => Err(EvalError::Heap(e)),
        },
        Value::Closure(_) => Err(EvalError::ClosureBoundary),
        Value::Function(f) => Err(EvalError::FunctionBoundary(f.clone())),
        Value::Task(_) => Err(EvalError::TaskBoundary),
        Value::Sender(s) => Ok(PortableValue::Sender(*s)),
        Value::Receiver(r) => Ok(PortableValue::Receiver(*r)),
        Value::Ref(_) => Err(EvalError::RefBoundary),
    }
}

/// The first failure among several values is that of the whole list.
proof fn fails_from(h: Cells, vs: Seq<Val>, i: nat, n: nat, depth: nat)
    requires
        i <= n <= vs.len(),
        detached_upto(h, vs, i, depth) is Err,
    ensures
        detached_upto(h, vs, n, depth) == detached_upto(h, vs, i, depth),
    decreases n,
{
    if i < n {
        fails_from(h, vs, i, (n - 1) as nat, depth);
    }
}

/// Stores a portable value on a heap.
pub fn from_portable(heap: &mut Heap, value: PortableValue) -> (r: Value)
    ensures
        (final(heap)@, r@) == placed(old(heap)@, value@),
    decreases value,
{
    match value {
        PortableValue::Int(n) => Value::Int(n),
        PortableValue::Float(b) => Value::Float(b),
        PortableValue::Str(s) => Value::HeapRef(heap.alloc_str(s)),
        PortableValue::Bool(b) => Value::Bool(b),
        PortableValue::Unit => Value::Unit,
        PortableValue::Ctor(tag, fields) => {
            let mut fields: Vec<PortableValue> = fields;
            let ghost all: Seq<PortableValue> = fields@;
            let mut vs: Vec<Value> = Vec::new();
            while fields.len() > 0
                invariant
                    vs@.len() <= all.len(),
                    fields@ == all.subrange(vs@.len() as int, all.len() as int),
                    (heap@, vals(vs@)) == placed_upto(old(heap)@, portables(all), vs@.len()),
                    value@ == Portable::Ctor(tag@, portables(all)),
                    value is Ctor,
                    value->Ctor_1@ == all,
                decreases fields@.len(),
            {
                let ghost i: int = vs@.len() as int;
                let ghost before: Seq<Value> = vs@;
                assert(all[i] == fields@[0]);
                let p: PortableValue = fields.remove(0);
                proof {
                    assert(decreases_to!(value => value->Ctor_1));
                    assert(decreases_to!(value->Ctor_1 => value->Ctor_1@));
                    assert(decreases_to!(all => all[i]));
                }
                assert(portables(all)[i] == p@);
                let v: Value = from_portable(heap, p);
                vs.push(v);
                assert(vals(vs@) =~= vals(before).push(v@));
                assert(fields@ =~= all.subrange(i + 1, all.len() as int));
            }
            Value::HeapRef(heap.alloc_ctor(tag, vs))
        },
        PortableValue::Sender(s) => Value::Sender(s),
        PortableValue::Receiver(r) => Value::Receiver(r),
    }
}

/// How many constructed values stand one inside another.
pub open spec fn height(p: Portable) -> nat
    decreases p,
{
    match p {
        Portable::Ctor(_, fields) => 1 + height_upto(fields, fields.len()),
        _ => 0,
    }
}

/// The largest height among the first `n`.
pub open spec fn height_upto(ps: Seq<Portable>, n: nat) -> nat
    decreases ps, n,
{
    if n == 0 || n > ps.len() {
        0
    } else {
        let a = height_upto(ps, (n - 1) as nat);
        let b = height(ps[n - 1]);
        if a > b {
            a
        } else {
            b
        }
    }
}

/// How many of the parts of a value need a cell each: strings and constructed values.
pub open spec fn nodes(p: Portable) -> nat
    decreases p,
{
    match p {
        Portable::Str(_) => 1,
        Portable::Ctor(_, fields) => nodes_upto(fields, fields.len()) + 1,
        _ => 0,
    }
}

/// How many cells the first `n` of several values need.
pub open spec fn nodes_upto(ps: Seq<Portable>, n: nat) -> nat
    decreases ps, n,
{
    if n == 0 || n > ps.len() {
        0
    } else {
        nodes_upto(ps, (n - 1) as nat) + nodes(ps[n - 1])
    }
}

/// The addresses at which a value `v` that is stored as `p` has its parts, each part after
/// those inside it.
pub open spec fn places(h: Cells, v: Val, p: Portable) -> Seq<int>
    decreases p,
{
    match (p, v) {
        (Portable::Str(_), Val::HeapRef(addr)) => seq![addr as int],
        (Portable::Ctor(_, ps), Val::HeapRef(addr)) => match cell_at(h, addr) {
            Ok(c) => match c.contents {
                Contents::Ctor(_, fields) => places_upto(h, fields, ps, ps.len()).push(addr as int),
                Contents::Str(_) => seq![addr as int],
            },
            Err(_) => seq![addr as int],
        },
        _ => Seq::empty(),
    }
}

/// The addresses at which the first `n` of several values have their parts.
pub open spec fn places_upto(h: Cells, vs: Seq<Val>, ps: Seq<Portable>, n: nat) -> Seq<int>
    decreases ps, n,
{
    if n == 0 || n > ps.len() {
        Seq::empty()
    } else {
        places_upto(h, vs, ps, (n - 1) as nat) + places(h, vs[n - 1], ps[n - 1])
    }
}

/// `n` addresses one after another.
pub open spec fn consecutive(from: int, n: nat) -> Seq<int> {
    Seq::new(n, |i: int| from + i)
}

/// Whether every address from `from` on holds a cell that is counted once.
pub open spec fn counted_once(h: Cells, from: int) -> bool {
    forall|i: int| from <= i < h.len() ==> (#[trigger] h[i]) is Some && (h[i]->0).refcount == 1
}

/// Whether every address of one heap holds the same in another.
pub open spec fn kept(h: Cells, h2: Cells) -> bool {
    &&& h.len() <= h2.len()
    &&& forall|i: int| 0 <= i < h.len() ==> h2[i] == #[trigger] h[i]
}

/// Storing a value on a heap leaves everything on it as it was.
pub proof fn placing_keeps_the_heap(h: Cells, p: Portable)
    ensures
        kept(h, placed(h, p).0),
    decreases p,
{
    if let Portable::Ctor(_, fields) = p {
        placing_list_keeps_the_heap(h, fields, fields.len());
    }
}

proof fn placing_list_keeps_the_heap(h: Cells, ps: Seq<Portable>, n: nat)
    ensures
        kept(h, placed_upto(h, ps, n).0),
        n <= ps.len() ==> placed_upto(h, ps, n).1.len() == n,
    decreases ps, n,
{
    if 0 < n <= ps.len() {
        placing_list_keeps_the_heap(h, ps, (n - 1) as nat);
        placing_keeps_the_heap(placed_upto(h, ps, (n - 1) as nat).0, ps[n - 1]);
    }
}

/// What could leave a heap can leave one that holds more, and is the same.
pub(crate) proof fn detaching_from_more(h: Cells, h2: Cells, v: Val, depth: nat)
    requires
        kept(h, h2),
        detached(h, v, depth) is Ok,
    ensures
        detached(h2, v, depth) == detached(h, v, depth),
    decreases depth, 0int,
{
    if let Val::HeapRef(addr) = v {
        assert(h2[addr as int] == h[addr as int]);
        if let Contents::Ctor(_, fields) = (h[addr as int]->0).contents {
            detaching_list_from_more(h, h2, fields, fields.len(), (depth - 1) as nat);
        }
    }
}

proof fn detaching_list_from_more(h: Cells, h2: Cells, vs: Seq<Val>, n: nat, depth: nat)
    requires
        kept(h, h2),
        detached_upto(h, vs, n, depth) is Ok,
    ensures
        detached_upto(h2, vs, n, depth) == detached_upto(h, vs, n, depth),
    decreases depth, n + 1,
{
    if 0 < n <= vs.len() {
        detaching_list_from_more(h, h2, vs, (n - 1) as nat, depth);
        detaching_from_more(h, h2, vs[n - 1], depth);
    }
}

/// Storing a value on another heap and detaching it there gives the same value back.
pub proof fn crossing_gives_the_value_back(h: Cells, p: Portable, depth: nat)
    requires
        height(p) <= depth,
        placed(h, p).0.len() <= usize::MAX,
    ensures
        detached(placed(h, p).0, placed(h, p).1, depth) == Ok::<Portable, Fault>(p),
    decreases p,
{
    if let Portable::Ctor(tag, fields) = p {
        let n = fields.len();
        let (h2, vs) = placed_upto(h, fields, n);
        let h3 = with_new(h2, Contents::Ctor(tag, vs));
        let addr = h2.len() as usize;
        placing_list_keeps_the_heap(h, fields, n);
        crossing_list_gives_the_values_back(h, fields, n, (depth - 1) as nat);
        assert(kept(h2, h3));
        detaching_list_from_more(h2, h3, vs, n, (depth - 1) as nat);
        assert(fields.take(n as int) =~= fields);
        assert(cell_at(h3, addr) == Ok::<Cell, super::heap::HeapError>(
            Cell { contents: Contents::Ctor(tag, vs), refcount: 1 },
        ));
    } else if let Portable::Str(s) = p {
        let h3 = with_new(h, Contents::Str(s));
        assert(cell_at(h3, h.len() as usize) == Ok::<Cell, super::heap::HeapError>(
            Cell { contents: Contents::Str(s), refcount: 1 },
        ));
    }
}

proof fn crossing_list_gives_the_values_back(h: Cells, ps: Seq<Portable>, n: nat, depth: nat)
    requires
        n <= ps.len(),
        height_upto(ps, n) <= depth,
        placed_upto(h, ps, n).0.len() <= usize::MAX,
    ensures
        detached_upto(placed_upto(h, ps, n).0, placed_upto(h, ps, n).1, n, depth) == Ok::<
            Seq<Portable>,
            Fault,
        >(ps.take(n as int)),
    decreases ps, n,
{
    if n > 0 {
        let m = (n - 1) as nat;
        let (h2, vs) = placed_upto(h, ps, m);
        let (h3, v) = placed(h2, ps[n - 1]);
        placing_list_keeps_the_heap(h, ps, m);
        placing_keeps_the_heap(h2, ps[n - 1]);
        crossing_list_gives_the_values_back(h, ps, m, depth);
        crossing_gives_the_value_back(h2, ps[n - 1], depth);
        detaching_list_from_more(h2, h3, vs, m, depth);
        detached_prefix(h3, vs, vs.push(v), m, depth);
        assert(ps.take(n as int) =~= ps.take(m as int).push(ps[n - 1]));
    } else {
        assert(ps.take(0) =~= Seq::empty());
    }
}

proof fn detached_prefix(h: Cells, a: Seq<Val>, b: Seq<Val>, n: nat, depth: nat)
    requires
        n <= a.len() <= b.len(),
        forall|i: int| 0 <= i < a.len() ==> a[i] == b[i],
    ensures
        detached_upto(h, a, n, depth) == detached_upto(h, b, n, depth),
    decreases n,
{
    if n > 0 {
        detached_prefix(h, a, b, (n - 1) as nat, depth);
    }
}

/// Storing a value on a heap adds one cell for each string and each constructed value in it,
/// counted once, and leaves everything else as it was. Every part has a cell of its own.
pub proof fn placing_adds_a_cell_for_each_part(h: Cells, p: Portable)
    requires
        placed(h, p).0.len() <= usize::MAX,
    ensures
        placed(h, p).0.len() == h.len() + nodes(p),
        kept(h, placed(h, p).0),
        counted_once(placed(h, p).0, h.len() as int),
        places(placed(h, p).0, placed(h, p).1, p) == consecutive(h.len() as int, nodes(p)),
        places(placed(h, p).0, placed(h, p).1, p).no_duplicates(),
{
    placing_takes_places(h, p, placed(h, p).0);
    placing_keeps_the_heap(h, p);
}

proof fn placing_takes_places(h: Cells, p: Portable, later: Cells)
    requires
        kept(placed(h, p).0, later),
        later.len() <= usize::MAX,
    ensures
        placed(h, p).0.len() == h.len() + nodes(p),
        counted_once(placed(h, p).0, h.len() as int),
        places(later, placed(h, p).1, p) == consecutive(h.len() as int, nodes(p)),
    decreases p,
{
    match p {
        Portable::Ctor(tag, fields) => {
            let n = fields.len();
            let (h2, vs) = placed_upto(h, fields, n);
            let h3 = with_new(h2, Contents::Ctor(tag, vs));
            assert(kept(h2, h3));
            placing_list_keeps_the_heap(h, fields, n);
            assert forall|i: int| 0 <= i < h2.len() implies later[i] == #[trigger] h2[i] by {
                assert(h3[i] == h2[i]);
            }
            placing_list_takes_places(h, fields, n, vs, later);
            assert(later[h2.len() as int] == h3[h2.len() as int]);
            assert(places(later, placed(h, p).1, p) =~= consecutive(h.len() as int, nodes(p)));
        },
        Portable::Str(s) => {
            assert(places(later, placed(h, p).1, p) =~= consecutive(h.len() as int, nodes(p)));
        },
        _ => {
            assert(places(later, placed(h, p).1, p) =~= consecutive(h.len() as int, nodes(p)));
        },
    }
}

proof fn placing_list_takes_places(
    h: Cells,
    ps: Seq<Portable>,
    n: nat,
    all: Seq<Val>,
    later: Cells,
)
    requires
        n <= ps.len(),
        n <= all.len(),
        kept(placed_upto(h, ps, n).0, later),
        later.len() <= usize::MAX,
        forall|i: int| 0 <= i < n ==> #[trigger] all[i] == placed_upto(h, ps, n).1[i],
    ensures
        placed_upto(h, ps, n).0.len() == h.len() + nodes_upto(ps, n),
        counted_once(placed_upto(h, ps, n).0, h.len() as int),
        places_upto(later, all, ps, n) == consecutive(h.len() as int, nodes_upto(ps, n)),
    decreases ps, n,
{
    if n > 0 {
        let m = (n - 1) as nat;
        let (h2, vs) = placed_upto(h, ps, m);
        let (h3, v) = placed(h2, ps[n - 1]);
        placing_list_keeps_the_heap(h, ps, m);
        placing_keeps_the_heap(h2, ps[n - 1]);
        assert forall|i: int| 0 <= i < h2.len() implies later[i] == #[trigger] h2[i] by {
            assert(h3[i] == h2[i]);
        }
        assert forall|i: int| 0 <= i < m implies #[trigger] all[i] == vs[i] by {
            assert(vs.push(v)[i] == vs[i]);
        }
        placing_list_takes_places(h, ps, m, all, later);
        placing_takes_places(h2, ps[n - 1], later);
        assert(all[n - 1] == v);
        assert(counted_once(h3, h.len() as int)) by {
            assert forall|i: int| h.len() <= i < h3.len() implies (#[trigger] h3[i]) is Some && (
            h3[i]->0).refcount == 1 by {
                if i < h2.len() {
                    assert(h3[i] == h2[i]);
                }
            }
        }
        assert(places_upto(later, all, ps, n) =~= consecutive(
            h.len() as int,
            nodes_upto(ps, n),
        ));
    } else {
        assert(places_upto(later, all, ps, n) =~= consecutive(h.len() as int, 0));
    }
}

/// A value is no higher than it has parts.
pub(crate) proof fn height_is_at_most_nodes(p: Portable)
    ensures
        height(p) <= nodes(p),
    decreases p,
{
    if let Portable::Ctor(_, fields) = p {
        heights_are_at_most_nodes(fields, fields.len());
    }
}

proof fn heights_are_at_most_nodes(ps: Seq<Portable>, n: nat)
    ensures
        height_upto(ps, n) <= nodes_upto(ps, n),
    decreases ps, n,
{
    if 0 < n <= ps.len() {
        heights_are_at_most_nodes(ps, (n - 1) as nat);
        height_is_at_most_nodes(ps[n - 1]);
    }
}

/// A value that is stored on a heap can leave it again as it came: the number of cells is
/// depth enough.
pub proof fn what_came_can_leave(h: Cells, p: Portable)
    requires
        placed(h, p).0.len() <= usize::MAX,
    ensures
        detached(placed(h, p).0, placed(h, p).1, placed(h, p).0.len()) == Ok::<Portable, Fault>(p),
{
    placing_adds_a_cell_for_each_part(h, p);
    height_is_at_most_nodes(p);
    crossing_gives_the_value_back(h, p, placed(h, p).0.len());
}

} // verus!
