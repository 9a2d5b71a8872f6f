//! The three-phase visitor that a pass over the particle table drives, the
//! relation that says what a pass does to a visitor and a table, the pass
//! that pairs every slot with every other slot, and a visitor that records
//! the neighbours of one chosen slot.

use vstd::prelude::*;
use crate::object::Object;

verus! {

/// A visitor of slot neighbourhoods.
///
/// For every slot a pass calls `start` once, then `next` once for each
/// candidate neighbour, in no promised order and possibly for slots that are
/// far away, then `end` once, which may write the slot's record.
///
/// Each phase comes with a relation between the visitor before the call and
/// the visitor after it. An implementation chooses its relations; one that
/// consults a source of noise states only what holds whatever was drawn,
/// and one that states nothing keeps the relations given here, which admit
/// every outcome.
pub trait UpdateScanner: Sized {
    /// `after` is a state in which `start(i, obj)` may leave `self`.
    open spec fn started(&self, i: usize, obj: Object, after: &Self) -> bool {
        true
    }

    /// `after` is a state in which `next(j, obj)` may leave `self`.
    open spec fn visited(&self, j: usize, obj: Object, after: &Self) -> bool {
        true
    }

    /// `end(i, obj)` may leave `self` as `after` and the record as `written`.
    open spec fn ended(&self, i: usize, obj: Object, after: &Self, written: Object) -> bool {
        true
    }

    /// Begins the pass over the neighbourhood of slot `i`.
    fn start(&mut self, i: usize, obj1: &Object)
        ensures
            old(self).started(i, *obj1, final(self)),
    ;

    /// Folds in candidate `j`.
    fn next(&mut self, j: usize, obj2: &Object)
        ensures
            old(self).visited(j, *obj2, final(self)),
    ;

    /// Finishes slot `i` and writes its record back.
    fn end(&mut self, i: usize, obj1: &mut Object)
        ensures
            old(self).ended(i, *old(obj1), final(self), *final(obj1)),
    ;
}

/// Feeding the candidates `js`, in order, turns visitor `from` into `to`.
pub open spec fn fed<V: UpdateScanner>(from: V, js: Seq<usize>, objs: Seq<Object>, to: V) -> bool
    decreases js.len(),
{
    if js.len() == 0 {
        to == from
    } else {
        exists|mid: V|
            fed(from, js.drop_last(), objs, mid) && #[trigger] mid.visited(
                js.last(),
                objs[js.last() as int],
                &to,
            )
    }
}

/// One slot's turn: `start`, the candidates `js`, then `end`, which replaces
/// the record of slot `i` and no other.
pub open spec fn slot_pass<V: UpdateScanner>(
    from: V,
    objs: Seq<Object>,
    i: int,
    js: Seq<usize>,
    to: V,
    out: Seq<Object>,
) -> bool {
    exists|a: V, b: V|
        {
            &&& from.started(i as usize, objs[i], &a)
            &&& #[trigger] fed(a, js, objs, b)
            &&& b.ended(i as usize, objs[i], &to, out[i])
            &&& out == objs.update(i, out[i])
        }
}

/// The turns of slots `0..n`, slot `i` with the candidates `plan[i]`, take
/// visitor `from` and table `objs` to visitor `to` and table `out`.
pub open spec fn scanned<V: UpdateScanner>(
    from: V,
    objs: Seq<Object>,
    plan: Seq<Seq<usize>>,
    n: nat,
    to: V,
    out: Seq<Object>,
) -> bool
    decreases n,
{
    if n == 0 {
        to == from && out == objs
    } else {
        exists|mid: V, mid_objs: Seq<Object>|
            scanned(from, objs, plan, (n - 1) as nat, mid, mid_objs) && #[trigger] slot_pass(
                mid,
                mid_objs,
                n - 1,
                plan[n - 1],
                to,
                out,
            )
    }
}

/// Feeding one more candidate extends a feed.
pub proof fn lemma_fed_push<V: UpdateScanner>(
    from: V,
    js: Seq<usize>,
    objs: Seq<Object>,
    mid: V,
    j: usize,
    to: V,
)
    requires
        fed(from, js, objs, mid),
        mid.visited(j, objs[j as int], &to),
    ensures
        fed(from, js.push(j), objs, to),
{
    let longer = js.push(j);
    assert(longer.drop_last() =~= js);
    assert(mid.visited(longer.last(), objs[longer.last() as int], &to));
}

/// Drives one slot's turn with an explicit list of candidates.
pub fn pass_slot<V: UpdateScanner>(
    objs: &mut Vec<Object>,
    scanner: &mut V,
    i: usize,
    js: &Vec<usize>,
)
    requires
        i < old(objs)@.len(),
        forall|k: int| 0 <= k < js@.len() ==> js@[k] < old(objs)@.len(),
    ensures
        slot_pass(*old(scanner), old(objs)@, i as int, js@, *final(scanner), final(objs)@),
        final(objs)@.len() == old(objs)@.len(),
{
    scanner.start(i, &objs[i]);
    let ghost a = *scanner;
    let mut k: usize = 0;
    while k < js.len()
        invariant
            k <= js@.len(),
            objs@ == old(objs)@,
            forall|m: int| 0 <= m < js@.len() ==> js@[m] < objs@.len(),
            fed(a, js@.take(k as int), objs@, *scanner),
        decreases js@.len() - k,
    {
        let ghost before = *scanner;
        let j = js[k];
        scanner.next(j, &objs[j]);
        proof {
            lemma_fed_push(a, js@.take(k as int), objs@, before, j, *scanner);
            assert(js@.take(k as int).push(j) =~= js@.take(k + 1));
        }
        k += 1;
    }
    assert(js@.take(k as int) =~= js@);
    let ghost b = *scanner;
    let mut obj = objs[i];
    scanner.end(i, &mut obj);
    objs[i] = obj;
    assert(fed(a, js@, old(objs)@, b));
}

/// Every slot but `i` of a table of `n` slots, in ascending order.
pub open spec fn others(n: nat, i: int) -> Seq<usize> {
    Seq::new(
        (n - 1) as nat,
        |k: int|
            if k < i {
                k as usize
            } else {
                (k + 1) as usize
            },
    )
}

/// The plan that pairs every slot with every other slot.
pub open spec fn all_pairs(n: nat) -> Seq<Seq<usize>> {
    Seq::new(n, |i: int| others(n, i))
}

/// The reference pass: every slot in turn is offered every other slot, in
/// ascending order. It needs no index and costs a quadratic number of calls.
pub fn scan_all_pairs<V: UpdateScanner>(objs: &mut Vec<Object>, update_scanner: &mut V)
    ensures
        final(objs)@.len() == old(objs)@.len(),
        scanned(
            *old(update_scanner),
            old(objs)@,
            all_pairs(old(objs)@.len()),
            old(objs)@.len(),
            *final(update_scanner),
            final(objs)@,
        ),
{
    let len = objs.len();
    let ghost plan = all_pairs(len as nat);
    let ghost from = *update_scanner;
    let mut i: usize = 0;
    while i < len
        invariant
            i <= len,
            len == objs@.len(),
            len == old(objs)@.len(),
            plan == all_pairs(len as nat),
            scanned(from, old(objs)@, plan, i as nat, *update_scanner, objs@),
        decreases len - i,
    {
        let ghost before = *update_scanner;
        let ghost before_objs = objs@;
        let ghost js = others(len as nat, i as int);
        update_scanner.start(i, &objs[i]);
        let ghost a = *update_scanner;
        let mut j: usize = 0;
        assert(js.take(0) =~= Seq::<usize>::empty());
        while j < len
            invariant
                i < len,
                j <= len,
                len == objs@.len(),
                objs@ == before_objs,
                js == others(len as nat, i as int),
                fed(
                    a,
                    js.take(
                        if j <= i {
                            j as int
                        } else {
                            j - 1
                        },
                    ),
                    objs@,
                    *update_scanner,
                ),
            decreases len - j,
        {
            if j != i {
                let ghost mid = *update_scanner;
                let ghost done: int = if j <= i {
                    j as int
                } else {
                    j - 1
                };
                update_scanner.next(j, &objs[j]);
                proof {
                    lemma_fed_push(a, js.take(done), objs@, mid, j, *update_scanner);
                    assert(js.take(done).push(j) =~= js.take(done + 1));
                }
            }
            j += 1;
        }
        assert(js.take(len - 1) =~= js);
        let ghost b = *update_scanner;
        let mut obj = objs[i];
        update_scanner.end(i, &mut obj);
        objs[i] = obj;
        proof {
            let n = (i + 1) as nat;
            assert(fed(a, js, before_objs, b));
            assert(scanned(from, old(objs)@, plan, (n - 1) as nat, before, before_objs));
            assert(slot_pass(before, before_objs, n - 1, plan[n - 1], *update_scanner, objs@));
        }
        i += 1;
    }
}

/// What a `FindScanner` holds.
pub struct FindState {
    /// The slot whose neighbours are wanted, if any.
    pub find_index: Option<usize>,
    /// The slot whose turn it is, once a pass has begun.
    pub current: Option<usize>,
    /// The candidates recorded so far.
    pub found: Seq<usize>,
}

/// A visitor that records which candidates a pass offers to one chosen slot.
pub struct FindScanner {
    find_index: Option<usize>,
    find_result: Vec<usize>,
    i: Option<usize>,
}

impl View for FindScanner {
    type V = FindState;

    closed spec fn view(&self) -> FindState {
        FindState { find_index: self.find_index, current: self.i, found: self.find_result@ }
    }
}

impl FindScanner {
    /// A visitor that records the candidates of slot `find_index`, or
    /// nothing when given `None`.
    pub fn new(find_index: Option<usize>) -> (scanner: FindScanner)
        ensures
            scanner@ == (FindState { find_index, current: None, found: Seq::empty() }),
    {
        FindScanner { find_index, find_result: Vec::new(), i: None }
    }

    /// The recorded candidates, in the order in which they were offered.
    pub fn into_find_result(self) -> (found: Vec<usize>)
        ensures
            found@ == self@.found,
    {
        self.find_result
    }
}

impl UpdateScanner for FindScanner {
    open spec fn started(&self, i: usize, obj: Object, after: &Self) -> bool {
        after@ == (FindState { current: Some(i), ..self@ })
    }

    open spec fn visited(&self, j: usize, obj: Object, after: &Self) -> bool {
        after@ == if self@.current.is_some() && self@.current == self@.find_index {
            FindState { found: self@.found.push(j), ..self@ }
        } else {
            self@
        }
    }

    open spec fn ended(&self, i: usize, obj: Object, after: &Self, written: Object) -> bool {
        after@ == self@ && written == obj
    }

    fn start(&mut self, i: usize, obj1: &Object) {
        self.i = Some(i);
    }

    fn next(&mut self, j: usize, obj2: &Object) {
        if self.i.is_some() && self.i == self.find_index {
            self.find_result.push(j);
        }
    }

    fn end(&mut self, i: usize, obj1: &mut Object) {
    }
}

/// Feeding candidates to a `FindScanner` appends them all when it is the
/// chosen slot's turn, and changes nothing otherwise.
proof fn lemma_find_fed(from: FindScanner, js: Seq<usize>, objs: Seq<Object>, to: FindScanner)
    requires
        fed(from, js, objs, to),
    ensures
        to@ == if from@.current.is_some() && from@.current == from@.find_index {
            FindState { found: from@.found + js, ..from@ }
        } else {
            from@
        },
    decreases js.len(),
{
    if js.len() == 0 {
        assert(from@.found + js =~= from@.found);
    } else {
        let mid = choose|mid: FindScanner|
            fed(from, js.drop_last(), objs, mid) && #[trigger] mid.visited(
                js.last(),
                objs[js.last() as int],
                &to,
            );
        lemma_find_fed(from, js.drop_last(), objs, mid);
        assert((from@.found + js.drop_last()).push(js.last()) =~= from@.found + js);
    }
}

/// A pass with a `FindScanner` leaves the table as it was and records
/// exactly the candidates that the plan gives the chosen slot, appended to
/// what was recorded before. With no chosen slot, or one that the pass does
/// not reach, it records nothing.
pub proof fn lemma_find_scanned(
    from: FindScanner,
    objs: Seq<Object>,
    plan: Seq<Seq<usize>>,
    n: nat,
    to: FindScanner,
    out: Seq<Object>,
)
    requires
        scanned(from, objs, plan, n, to, out),
        n <= objs.len(),
        n <= plan.len(),
        n <= usize::MAX,
    ensures
        out == objs,
        to@.find_index == from@.find_index,
        to@.found == match from@.find_index {
            Some(chosen) if chosen < n => from@.found + plan[chosen as int],
            _ => from@.found,
        },
        n > 0 ==> to@.current == Some((n - 1) as usize),
        n == 0 ==> to@.current == from@.current,
    decreases n,
{
    if n > 0 {
        let (mid, mid_objs) = choose|mid: FindScanner, mid_objs: Seq<Object>|
            scanned(from, objs, plan, (n - 1) as nat, mid, mid_objs) && #[trigger] slot_pass(
                mid,
                mid_objs,
                n - 1,
                plan[n - 1],
                to,
                out,
            );
        lemma_find_scanned(from, objs, plan, (n - 1) as nat, mid, mid_objs);
        let i = n - 1;
        let (a, b) = choose|a: FindScanner, b: FindScanner|
            {
                &&& mid.started(i as usize, mid_objs[i], &a)
                &&& #[trigger] fed(a, plan[i], mid_objs, b)
                &&& b.ended(i as usize, mid_objs[i], &to, out[i])
                &&& out == mid_objs.update(i, out[i])
            };
        lemma_find_fed(a, plan[i], mid_objs, b);
        assert(out =~= objs);
        assert(from@.found + Seq::<usize>::empty() =~= from@.found);
    }
}

} // verus!
