//! The timeline of an examined span: which rows it has, in which order, and
//! the frame that they share.

use vstd::prelude::*;

use crate::chart::{
    columns_of, elapsed, law_full_length_fills_the_chart, law_part_fits_the_chart, width,
    RenderConf, MAX_KEY_WIDTH, NESTED_EVENT_OFFSET,
};
use crate::double::MANT_END;
use crate::fields::{FieldSettings, FilterModel};
use crate::interest::{
    children_of, find, has_path, infos_of, paths_valid, place_of, Child, ChildModel, InterestModel,
    InterestTracker,
};
use crate::span::{cuts_at_char, event_rows, events_of, EventInfo, EventModel, SpanInfo};
use crate::time::Timestamp;

verus! {

/// Start of the span with this path, the epoch where it is not known.
pub open spec fn start_of(children: Seq<ChildModel>, path: Seq<u64>) -> i128 {
    if has_path(children, path) {
        match children[place_of(children, path)].span.info {
            Some(info) => info.start.nanos,
            None => 0,
        }
    } else {
        0
    }
}

/// Whether the start of the span with this path is known.
pub open spec fn start_known(children: Seq<ChildModel>, path: Seq<u64>) -> bool {
    has_path(children, path) && children[place_of(children, path)].span.info is Some
}

/// Whether every span was opened, and every span around it.
pub open spec fn starts_known(children: Seq<ChildModel>) -> bool {
    forall|i: int, n: int|
        #![trigger children[i].path.take(n)]
        0 <= i < children.len() && 1 <= n <= children[i].path.len() ==> start_known(
            children,
            children[i].path.take(n),
        )
}

/// By what a span is ordered: its start, then its parent's, and so on up to
/// the examined span's.
pub open spec fn key_of(children: Seq<ChildModel>, path: Seq<u64>) -> Seq<i128> {
    Seq::new(path.len(), |i: int| start_of(children, path.take(path.len() - i)))
}

/// Lexicographic order.
pub open spec fn key_less(a: Seq<i128>, b: Seq<i128>) -> bool
    decreases a.len(),
{
    if b.len() == 0 {
        false
    } else if a.len() == 0 {
        true
    } else if a[0] != b[0] {
        a[0] < b[0]
    } else {
        key_less(a.drop_first(), b.drop_first())
    }
}

/// Whether child `i` is shown before child `j`: by their keys, and those with
/// the same key in the order in which they were first seen.
pub open spec fn shown_before(children: Seq<ChildModel>, i: int, j: int) -> bool {
    let (a, b) = (key_of(children, children[i].path), key_of(children, children[j].path));
    key_less(a, b) || (a == b && i < j)
}

/// Whether `order` lists the first `n` children, each once, as they are
/// shown.
pub open spec fn orders_first(children: Seq<ChildModel>, order: Seq<usize>, n: nat) -> bool {
    &&& order.len() == n
    &&& forall|k: int| 0 <= k < order.len() ==> #[trigger] order[k] < n
    &&& forall|i: usize| i < n ==> #[trigger] order.contains(i)
    &&& forall|k: int, l: int|
        0 <= k < l < order.len() ==> shown_before(
            children,
            #[trigger] order[k] as int,
            #[trigger] order[l] as int,
        )
}

/// Whether `order` lists all children, each once, as they are shown.
pub open spec fn is_order(children: Seq<ChildModel>, order: Seq<usize>) -> bool {
    orders_first(children, order, children.len())
}

/// The order in which the children are shown.
pub open spec fn order_of(children: Seq<ChildModel>) -> Seq<usize> {
    choose|order: Seq<usize>| is_order(children, order)
}

pub proof fn lemma_key_less_irreflexive(a: Seq<i128>)
    ensures
        !key_less(a, a),
    decreases a.len(),
{
    if a.len() > 0 {
        lemma_key_less_irreflexive(a.drop_first());
    }
}

pub proof fn lemma_key_less_transitive(a: Seq<i128>, b: Seq<i128>, c: Seq<i128>)
    requires
        key_less(a, b),
        key_less(b, c),
    ensures
        key_less(a, c),
    decreases a.len(),
{
    if a.len() > 0 && b.len() > 0 && c.len() > 0 && a[0] == b[0] && b[0] == c[0] {
        lemma_key_less_transitive(a.drop_first(), b.drop_first(), c.drop_first());
    }
}

pub proof fn lemma_key_less_total(a: Seq<i128>, b: Seq<i128>)
    ensures
        key_less(a, b) || key_less(b, a) || a == b,
    decreases a.len(),
{
    if a.len() > 0 && b.len() > 0 && a[0] == b[0] {
        lemma_key_less_total(a.drop_first(), b.drop_first());
        if a.drop_first() == b.drop_first() {
            assert(a =~= seq![a[0]] + a.drop_first());
            assert(b =~= seq![b[0]] + b.drop_first());
        }
    } else if a.len() == 0 && b.len() == 0 {
        assert(a =~= b);
    }
}

proof fn lemma_shown_before_transitive(children: Seq<ChildModel>, i: int, j: int, k: int)
    requires
        shown_before(children, i, j),
        shown_before(children, j, k),
    ensures
        shown_before(children, i, k),
{
    let a = key_of(children, children[i].path);
    let b = key_of(children, children[j].path);
    let c = key_of(children, children[k].path);
    if key_less(a, b) && key_less(b, c) {
        lemma_key_less_transitive(a, b, c);
    }
}

proof fn lemma_shown_before_irreflexive(children: Seq<ChildModel>, i: int)
    ensures
        !shown_before(children, i, i),
{
    lemma_key_less_irreflexive(key_of(children, children[i].path));
}

/// Whether key `a` comes before key `b`.
fn less_key(a: &Vec<i128>, b: &Vec<i128>) -> (less: bool)
    ensures
        less == key_less(a@, b@),
{
    let mut i: usize = 0;
    assert(a@.skip(0) =~= a@ && b@.skip(0) =~= b@);
    while i < a.len() && i < b.len()
        invariant
            i <= a@.len(),
            i <= b@.len(),
            key_less(a@, b@) == key_less(a@.skip(i as int), b@.skip(i as int)),
        decreases a@.len() - i,
    {
        proof {
            let (s, t) = (a@.skip(i as int), b@.skip(i as int));
            assert(s[0] == a@[i as int] && t[0] == b@[i as int]);
            assert(s.drop_first() =~= a@.skip(i + 1));
            assert(t.drop_first() =~= b@.skip(i + 1));
        }
        if a[i] != b[i] {
            return a[i] < b[i];
        }
        i = i + 1;
    }
    i < b.len()
}

/// By what the span with the path `target` is ordered.
fn sort_key(children: &Vec<Child>, target: &[u64]) -> (key: Vec<i128>)
    requires
        paths_valid(children_of(children@)),
    ensures
        key@ == key_of(children_of(children@), target@),
{
    let mut key: Vec<i128> = Vec::new();
    let mut len: usize = target.len();
    while len > 0
        invariant
            len <= target@.len(),
            paths_valid(children_of(children@)),
            key@.len() == target@.len() - len,
            forall|i: int|
                0 <= i < key@.len() ==> #[trigger] key@[i] == start_of(
                    children_of(children@),
                    target@.take(target@.len() - i),
                ),
        decreases len,
    {
        let prefix = vstd::slice::slice_subrange(target, 0, len);
        assert(prefix@ =~= target@.take(len as int));
        let start: i128 = match find(children, prefix) {
            Some(place) => match children[place].span.info {
                Some(info) => info.start.nanos,
                None => 0,
            },
            None => 0,
        };
        key.push(start);
        len = len - 1;
    }
    assert(key@ =~= key_of(children_of(children@), target@));
    key
}

/// There is only one order in which the children can be shown.
pub proof fn law_order_is_unique(children: Seq<ChildModel>, a: Seq<usize>, b: Seq<usize>)
    requires
        is_order(children, a),
        is_order(children, b),
    ensures
        a == b,
{
    lemma_orders_agree(children, a, b, a.len() as int);
    assert(a =~= b);
}

proof fn lemma_orders_agree(children: Seq<ChildModel>, a: Seq<usize>, b: Seq<usize>, n: int)
    requires
        is_order(children, a),
        is_order(children, b),
        0 <= n <= a.len(),
    ensures
        forall|k: int| 0 <= k < n ==> #[trigger] a[k] == b[k],
    decreases n,
{
    if n > 0 {
        lemma_orders_agree(children, a, b, n - 1);
        let k = n - 1;
        if a[k] != b[k] {
            assert(b.contains(a[k]));
            let l = choose|l: int| 0 <= l < b.len() && b[l] == a[k];
            assert(a.contains(b[k]));
            let m = choose|m: int| 0 <= m < a.len() && a[m] == b[k];
            if l < k {
                assert(a[l] == b[l]);
                assert(shown_before(children, a[l] as int, a[k] as int));
                lemma_shown_before_irreflexive(children, a[k] as int);
            } else if m < k {
                assert(a[m] == b[m]);
                assert(shown_before(children, b[m] as int, b[k] as int));
                lemma_shown_before_irreflexive(children, b[k] as int);
            } else {
                assert(shown_before(children, b[k] as int, b[l] as int));
                assert(shown_before(children, a[k] as int, a[m] as int));
                lemma_shown_before_transitive(children, a[k] as int, b[k] as int, a[k] as int);
                lemma_shown_before_irreflexive(children, a[k] as int);
            }
        }
    }
}

/// Rows come in the order in which their spans started.
pub proof fn law_rows_follow_starts(children: Seq<ChildModel>, order: Seq<usize>, k: int, l: int)
    requires
        paths_valid(children),
        is_order(children, order),
        0 <= k < l < order.len(),
    ensures
        start_of(children, children[order[k] as int].path) <= start_of(
            children,
            children[order[l] as int].path,
        ),
{
    let (p, q) = (children[order[k] as int].path, children[order[l] as int].path);
    assert(shown_before(children, order[k] as int, order[l] as int));
    assert(p.len() > 0 && q.len() > 0);
    assert(p.take(p.len() as int) =~= p);
    assert(q.take(q.len() as int) =~= q);
    assert(key_of(children, p)[0] == start_of(children, p));
    assert(key_of(children, q)[0] == start_of(children, q));
}

/// Whether no span on the path started before the one around it.
pub open spec fn starts_nest(children: Seq<ChildModel>, path: Seq<u64>) -> bool {
    forall|n: int|
        1 <= n < path.len() ==> start_of(children, #[trigger] path.take(n)) <= start_of(
            children,
            path.take(n + 1),
        )
}

/// A span's row comes before the rows of all spans inside it.
pub proof fn law_ancestors_come_first(
    children: Seq<ChildModel>,
    order: Seq<usize>,
    ancestor: int,
    child: int,
)
    requires
        paths_valid(children),
        is_order(children, order),
        0 <= ancestor < order.len(),
        0 <= child < order.len(),
        ({
            let (outer, inner) = (
                children[order[ancestor] as int].path,
                children[order[child] as int].path,
            );
            &&& outer.len() < inner.len()
            &&& outer == inner.take(outer.len() as int)
            &&& starts_nest(children, inner)
        }),
    ensures
        ancestor < child,
{
    let (p, c) = (order[ancestor] as int, order[child] as int);
    assert(children[p].path.len() > 0);
    lemma_ancestor_key_less(children, children[c].path, children[p].path.len() as int);
    lemma_key_less_irreflexive(key_of(children, children[p].path));
    if child < ancestor {
        assert(shown_before(children, c, p));
        assert(shown_before(children, p, c));
        lemma_shown_before_transitive(children, p, c, p);
        lemma_shown_before_irreflexive(children, p);
    }
}

proof fn lemma_ancestor_key_less(children: Seq<ChildModel>, path: Seq<u64>, n: int)
    requires
        1 <= n < path.len(),
        starts_nest(children, path),
    ensures
        key_less(key_of(children, path.take(n)), key_of(children, path)),
    decreases path.len() - n,
{
    lemma_parent_key_less(children, path);
    let up = path.drop_last();
    if n == up.len() {
        assert(path.take(n) =~= up);
    } else {
        assert forall|m: int| 1 <= m < up.len() implies start_of(children, #[trigger] up.take(m))
            <= start_of(children, up.take(m + 1)) by {
            assert(up.take(m) =~= path.take(m));
            assert(up.take(m + 1) =~= path.take(m + 1));
        }
        lemma_ancestor_key_less(children, up, n);
        assert(up.take(n) =~= path.take(n));
        lemma_key_less_transitive(
            key_of(children, path.take(n)),
            key_of(children, up),
            key_of(children, path),
        );
    }
}

proof fn lemma_parent_key_less(children: Seq<ChildModel>, path: Seq<u64>)
    requires
        path.len() > 1,
        starts_nest(children, path),
    ensures
        key_less(key_of(children, path.drop_last()), key_of(children, path)),
    decreases path.len(),
{
    let up = path.drop_last();
    let n = path.len() as int;
    let (a, b) = (key_of(children, up), key_of(children, path));
    assert(up =~= path.take(n - 1));
    assert(up.take(n - 1) =~= up);
    assert(path.take(n) =~= path);
    assert(a[0] == start_of(children, path.take(n - 1)));
    assert(b[0] == start_of(children, path.take(n - 1 + 1)));
    assert(a[0] <= b[0]);
    if a[0] == b[0] {
        assert forall|i: int| 0 <= i < n - 1 implies #[trigger] b.drop_first()[i] == a[i] by {
            assert(path.take(n - (i + 1)) =~= up.take(n - 1 - i));
        }
        assert(b.drop_first() =~= a);
        if n > 2 {
            let top = up.drop_last();
            assert forall|m: int| 1 <= m < up.len() implies start_of(
                children,
                #[trigger] up.take(m),
            ) <= start_of(children, up.take(m + 1)) by {
                assert(up.take(m) =~= path.take(m));
                assert(up.take(m + 1) =~= path.take(m + 1));
            }
            lemma_parent_key_less(children, up);
            assert forall|i: int| 0 <= i < n - 2 implies #[trigger] a.drop_first()[i] == key_of(
                children,
                top,
            )[i] by {
                assert(up.take(n - 1 - (i + 1)) =~= top.take(n - 2 - i));
            }
            assert(a.drop_first() =~= key_of(children, top));
            assert(up.drop_last() == top);
        }
        assert(key_less(a.drop_first(), b.drop_first()));
    }
}

/// The place at which child `n` goes among the ordered children before it.
fn insertion_point(keys: &Vec<Vec<i128>>, order: &Vec<usize>, n: usize) -> (place: usize)
    requires
        n < keys@.len(),
        forall|k: int| 0 <= k < order@.len() ==> #[trigger] order@[k] < n,
    ensures
        place <= order@.len(),
        forall|k: int|
            place <= k < order@.len() ==> key_less(
                keys@[n as int]@,
                keys@[#[trigger] order@[k] as int]@,
            ),
        place > 0 ==> !key_less(keys@[n as int]@, keys@[order@[place - 1] as int]@),
{
    let mut place: usize = order.len();
    while place > 0 && less_key(&keys[n], &keys[order[place - 1]])
        invariant
            n < keys@.len(),
            forall|k: int| 0 <= k < order@.len() ==> #[trigger] order@[k] < n,
            place <= order@.len(),
            forall|k: int|
                place <= k < order@.len() ==> key_less(
                    keys@[n as int]@,
                    keys@[#[trigger] order@[k] as int]@,
                ),
        decreases place,
    {
        place = place - 1;
    }
    place
}

/// The order in which the children are shown.
fn display_order(children: &Vec<Child>) -> (order: Vec<usize>)
    requires
        paths_valid(children_of(children@)),
    ensures
        is_order(children_of(children@), order@),
{
    let ghost cs = children_of(children@);
    let mut keys: Vec<Vec<i128>> = Vec::new();
    let mut i: usize = 0;
    while i < children.len()
        invariant
            cs == children_of(children@),
            paths_valid(cs),
            i <= children@.len(),
            keys@.len() == i,
            forall|k: int| 0 <= k < i ==> #[trigger] keys@[k]@ == key_of(cs, cs[k].path),
        decreases children@.len() - i,
    {
        keys.push(sort_key(children, children[i].path.as_slice()));
        i = i + 1;
    }
    let mut order: Vec<usize> = Vec::new();
    let mut n: usize = 0;
    while n < children.len()
        invariant
            cs == children_of(children@),
            n <= children@.len(),
            keys@.len() == children@.len(),
            forall|k: int| 0 <= k < keys@.len() ==> #[trigger] keys@[k]@ == key_of(cs, cs[k].path),
            orders_first(cs, order@, n as nat),
        decreases children@.len() - n,
    {
        let place: usize = insertion_point(&keys, &order, n);
        let ghost before = order@;
        order.insert(place, n);
        proof {
            assert(order@ == before.insert(place as int, n));
            lemma_insert_keeps_order(cs, before, n, place as int);
        }
        n = n + 1;
    }
    order
}

/// Inserting the next child after those with lower or equal keys keeps the
/// order.
proof fn lemma_insert_keeps_order(
    children: Seq<ChildModel>,
    order: Seq<usize>,
    n: usize,
    place: int,
)
    requires
        n < children.len(),
        orders_first(children, order, n as nat),
        0 <= place <= order.len(),
        forall|k: int|
            place <= k < order.len() ==> key_less(
                key_of(children, children[n as int].path),
                key_of(children, children[#[trigger] order[k] as int].path),
            ),
        place > 0 ==> !key_less(
            key_of(children, children[n as int].path),
            key_of(children, children[order[place - 1] as int].path),
        ),
    ensures
        orders_first(children, order.insert(place, n), (n + 1) as nat),
{
    let after = order.insert(place, n);
    if place > 0 {
        let p = order[place - 1] as int;
        lemma_key_less_total(
            key_of(children, children[p].path),
            key_of(children, children[n as int].path),
        );
        assert(shown_before(children, p, n as int));
        assert forall|k: int| 0 <= k < place implies shown_before(
            children,
            #[trigger] order[k] as int,
            n as int,
        ) by {
            if k < place - 1 {
                assert(shown_before(children, order[k] as int, p));
                lemma_shown_before_transitive(children, order[k] as int, p, n as int);
            }
        }
    }
    assert forall|i: usize| i < n + 1 implies #[trigger] after.contains(i) by {
        if i == n {
            assert(after[place] == n);
        } else {
            assert(order.contains(i));
            let k = choose|k: int| 0 <= k < order.len() && order[k] == i;
            if k < place {
                assert(after[k] == i);
            } else {
                assert(after[k + 1] == i);
            }
        }
    }
    assert forall|k: int, l: int| 0 <= k < l < after.len() implies shown_before(
        children,
        #[trigger] after[k] as int,
        #[trigger] after[l] as int,
    ) by {
        let kk = if k < place {
            k
        } else {
            k - 1
        };
        let ll = if l < place {
            l
        } else {
            l - 1
        };
        if k != place {
            assert(after[k] == order[kk]);
        }
        if l != place {
            assert(after[l] == order[ll]);
        }
    }
}

/// There is an order in which the first `n` children can be shown.
proof fn lemma_order_exists(children: Seq<ChildModel>, n: usize) -> (order: Seq<usize>)
    requires
        n <= children.len(),
    ensures
        orders_first(children, order, n as nat),
    decreases n,
{
    if n == 0 {
        Seq::empty()
    } else {
        let last = (n - 1) as usize;
        let order = lemma_order_exists(children, last);
        let place = lemma_place_exists(children, order, last, order.len() as int);
        lemma_insert_keeps_order(children, order, last, place);
        order.insert(place, last)
    }
}

/// There is a place for the next child among the ordered children.
proof fn lemma_place_exists(
    children: Seq<ChildModel>,
    order: Seq<usize>,
    n: usize,
    upto: int,
) -> (place: int)
    requires
        0 <= upto <= order.len(),
        forall|k: int|
            upto <= k < order.len() ==> key_less(
                key_of(children, children[n as int].path),
                key_of(children, children[#[trigger] order[k] as int].path),
            ),
    ensures
        0 <= place <= order.len(),
        forall|k: int|
            place <= k < order.len() ==> key_less(
                key_of(children, children[n as int].path),
                key_of(children, children[#[trigger] order[k] as int].path),
            ),
        place > 0 ==> !key_less(
            key_of(children, children[n as int].path),
            key_of(children, children[order[place - 1] as int].path),
        ),
    decreases upto,
{
    if upto > 0 && key_less(
        key_of(children, children[n as int].path),
        key_of(children, children[order[upto - 1] as int].path),
    ) {
        lemma_place_exists(children, order, n, upto - 1)
    } else {
        upto
    }
}

/// The children can be shown, in one order only.
pub proof fn law_children_have_an_order(children: Seq<ChildModel>)
    requires
        children.len() <= usize::MAX,
    ensures
        is_order(children, order_of(children)),
        forall|order: Seq<usize>| is_order(children, order) ==> order == order_of(children),
{
    let order = lemma_order_exists(children, children.len() as usize);
    assert(is_order(children, order));
    assert forall|order: Seq<usize>| is_order(children, order) implies order == order_of(
        children,
    ) by {
        law_order_is_unique(children, order, order_of(children));
    }
}

/// The earliest start of a list of spans.
pub open spec fn earliest(infos: Seq<SpanInfo>) -> Timestamp
    decreases infos.len(),
{
    if infos.len() <= 1 {
        infos[0].start
    } else {
        let before = earliest(infos.drop_last());
        if infos.last().start.nanos < before.nanos {
            infos.last().start
        } else {
            before
        }
    }
}

/// The latest end of a list of spans; `None` where none has ended.
pub open spec fn latest(infos: Seq<SpanInfo>) -> Option<Timestamp>
    decreases infos.len(),
{
    if infos.len() == 0 {
        None
    } else {
        let before = latest(infos.drop_last());
        match (before, infos.last().end) {
            (Some(a), Some(b)) => if b.nanos >= a.nanos {
                Some(b)
            } else {
                Some(a)
            },
            (None, end) => end,
            (before, None) => before,
        }
    }
}

/// Columns that the widest key needs.
pub open spec fn widest(children: Seq<ChildModel>) -> nat
    decreases children.len(),
{
    if children.len() == 0 {
        0
    } else {
        let before = widest(children.drop_last());
        let own = children.last().span.key_columns(children.last().path.len());
        if own > before {
            own
        } else {
            before
        }
    }
}

/// Columns of the keys of the timeline: what the widest needs, at most 120.
pub open spec fn key_width_of(children: Seq<ChildModel>) -> usize {
    if children.len() == 0 || widest(children) > 120 {
        120
    } else {
        widest(children) as usize
    }
}

/// Indentation of a child.
pub open spec fn indent(child: ChildModel) -> nat {
    (2 * (child.path.len() - 1)) as nat
}

impl InterestModel {
    /// The frame of the timeline: from the earliest start to the latest end.
    pub open spec fn frame(self) -> RenderConf {
        let infos = infos_of(self.children);
        RenderConf {
            start_ts: earliest(infos),
            end_ts: latest(infos)->0,
            key_width: key_width_of(self.children),
            width: self.render_settings.width,
        }
    }

    /// Whether the rows of a child can be laid out.
    pub open spec fn rows_fit(self, child: ChildModel) -> bool {
        let conf = self.frame();
        match child.span.info {
            None => true,
            Some(info) => {
                &&& self.render_settings.types.spans ==> child.span.row_fits(
                    info,
                    conf,
                    indent(child),
                )
                &&& self.render_settings.types.events ==> events_fit(
                    child.span.events,
                    self.field_settings.with_message(),
                    conf,
                    indent(child),
                )
            },
        }
    }

    /// The rows of a child: its own, and those of its events.
    pub open spec fn rows(self, child: ChildModel) -> Seq<char> {
        let conf = self.frame();
        match child.span.info {
            None => Seq::empty(),
            Some(info) => {
                let own = if self.render_settings.types.spans {
                    child.span.row(info, self.render_settings, conf, indent(child))
                } else {
                    Seq::empty()
                };
                let events = if self.render_settings.types.events {
                    event_rows(
                        child.span.events,
                        self.field_settings.with_message(),
                        conf,
                        info.start,
                        indent(child),
                    )
                } else {
                    Seq::empty()
                };
                own + events
            },
        }
    }

    /// The rows of the children listed in `order`.
    pub open spec fn all_rows(self, order: Seq<usize>) -> Seq<char>
        decreases order.len(),
    {
        if order.len() == 0 {
            Seq::empty()
        } else {
            self.all_rows(order.drop_last()) + self.rows(self.children[order.last() as int])
        }
    }

    /// Whether the timeline can be laid out: no span was opened, or one has
    /// ended and all rows fit.
    pub open spec fn can_dump(self) -> bool {
        ||| infos_of(self.children).len() == 0
        ||| {
            &&& latest(infos_of(self.children)) is Some
            &&& forall|i: int|
                0 <= i < self.children.len() ==> self.rows_fit(#[trigger] self.children[i])
        }
    }

    /// The timeline.
    pub open spec fn dumped(self) -> Seq<char> {
        if infos_of(self.children).len() == 0 {
            "no events..."@
        } else {
            "\n"@ + self.all_rows(order_of(self.children))
        }
    }
}

/// Whether the rows of all events can be laid out at an indentation.
pub open spec fn events_fit(
    events: Seq<EventModel>,
    filter: FilterModel,
    conf: RenderConf,
    left: nat,
) -> bool {
    forall|i: int| 0 <= i < events.len() ==> (#[trigger] events[i]).row_fits(filter, conf, left)
}

/// The earliest start and the latest end of a list of spans.
fn extent(infos: &Vec<SpanInfo>) -> (r: (Timestamp, Option<Timestamp>))
    requires
        infos@.len() > 0,
    ensures
        r.0 == earliest(infos@),
        r.1 == latest(infos@),
{
    let mut start: Timestamp = infos[0].start;
    let mut end: Option<Timestamp> = infos[0].end;
    let mut i: usize = 1;
    proof {
        let first = infos@.take(1);
        assert(first.drop_last() =~= Seq::<SpanInfo>::empty());
        assert(latest(first.drop_last()) == None::<Timestamp>);
    }
    while i < infos.len()
        invariant
            1 <= i <= infos@.len(),
            start == earliest(infos@.take(i as int)),
            end == latest(infos@.take(i as int)),
        decreases infos@.len() - i,
    {
        let info = infos[i];
        proof {
            assert(infos@.take(i + 1).drop_last() =~= infos@.take(i as int));
            assert(infos@.take(i + 1).last() == info);
        }
        if info.start.nanos < start.nanos {
            start = info.start;
        }
        end = match (end, info.end) {
            (Some(a), Some(b)) => if b.nanos >= a.nanos {
                Some(b)
            } else {
                Some(a)
            },
            (None, end) => end,
            (end, None) => end,
        };
        i = i + 1;
    }
    assert(infos@.take(i as int) =~= infos@);
    (start, end)
}

/// Columns of the keys of the timeline.
fn key_width(children: &Vec<Child>) -> (columns: usize)
    requires
        paths_valid(children_of(children@)),
    ensures
        columns == key_width_of(children_of(children@)),
{
    let ghost cs = children_of(children@);
    let mut columns: usize = 0;
    let mut i: usize = 0;
    while i < children.len()
        invariant
            cs == children_of(children@),
            paths_valid(cs),
            i <= children@.len(),
            columns == if widest(cs.take(i as int)) <= usize::MAX {
                widest(cs.take(i as int))
            } else {
                usize::MAX as nat
            },
        decreases children@.len() - i,
    {
        proof {
            assert(cs.take(i + 1).drop_last() =~= cs.take(i as int));
            assert(cs.take(i + 1).last() == cs[i as int]);
            assert(cs[i as int].path.len() > 0);
        }
        let own: usize = children[i].span.max_key_width(children[i].path.len());
        if own > columns {
            columns = own;
        }
        i = i + 1;
    }
    assert(cs.take(i as int) =~= cs);
    if children.len() == 0 || columns > MAX_KEY_WIDTH {
        MAX_KEY_WIDTH
    } else {
        columns
    }
}

/// The start of the frame is not after the start of any span.
pub proof fn lemma_earliest(infos: Seq<SpanInfo>, i: int)
    requires
        0 <= i < infos.len(),
    ensures
        earliest(infos).nanos <= infos[i].start.nanos,
    decreases infos.len(),
{
    if infos.len() > 1 && i < infos.len() - 1 {
        lemma_earliest(infos.drop_last(), i);
    } else if infos.len() > 1 {
        assert(infos.last() == infos[i]);
    }
}

/// The info of a child that was opened is among the infos.
pub proof fn lemma_info_listed(children: Seq<ChildModel>, i: int)
    requires
        0 <= i < children.len(),
        children[i].span.info is Some,
    ensures
        infos_of(children).contains(children[i].span.info->0),
    decreases children.len(),
{
    let info = children[i].span.info->0;
    let shorter = children.drop_last();
    if i < shorter.len() {
        assert(shorter[i] == children[i]);
        lemma_info_listed(shorter, i);
        let before = infos_of(shorter);
        let k = choose|k: int| 0 <= k < before.len() && before[k] == info;
        assert(infos_of(children)[k] == info);
    } else {
        let n = infos_of(shorter).len() as int;
        assert(infos_of(children)[n] == info);
    }
}

/// The end of the frame is not before the end of any span.
pub proof fn lemma_latest(infos: Seq<SpanInfo>, i: int)
    requires
        0 <= i < infos.len(),
        infos[i].end is Some,
    ensures
        latest(infos) is Some,
        infos[i].end->0.nanos <= latest(infos)->0.nanos,
    decreases infos.len(),
{
    if i < infos.len() - 1 {
        assert(infos.drop_last()[i] == infos[i]);
        lemma_latest(infos.drop_last(), i);
    } else {
        assert(infos.last() == infos[i]);
    }
}

/// Every span that has ended lies within the frame of the timeline: it starts
/// no earlier, and ends no later. Its bar is no wider than the chart, and
/// fills it where the span is as long as the frame.
pub proof fn law_spans_lie_in_the_frame(tracker: InterestModel, i: int)
    requires
        0 <= i < tracker.children.len(),
        tracker.children[i].span.info is Some,
        tracker.children[i].span.info->0.nanos() is Some,
        tracker.frame().columns() <= MANT_END,
    ensures
        ({
            let info = tracker.children[i].span.info->0;
            let conf = tracker.frame();
            let nanos = info.nanos()->0;
            let bar_columns = columns_of(conf.columns(), conf.span(), nanos);
            &&& conf.start_ts.nanos <= info.start.nanos
            &&& info.end->0.nanos <= conf.end_ts.nanos
            &&& nanos <= conf.span()
            &&& bar_columns <= conf.columns()
            &&& 0 < nanos == conf.span() ==> bar_columns == conf.columns()
            &&& columns_of(conf.columns(), conf.span(), elapsed(info.start, conf.start_ts))
                <= conf.columns()
        }),
{
    let info = tracker.children[i].span.info->0;
    let conf = tracker.frame();
    let nanos = info.nanos()->0;
    let infos = infos_of(tracker.children);
    lemma_info_listed(tracker.children, i);
    let k = choose|k: int| 0 <= k < infos.len() && infos[k] == info;
    lemma_earliest(infos, k);
    lemma_latest(infos, k);
    let columns = conf.columns() as usize;
    law_part_fits_the_chart(columns, conf.span(), nanos);
    law_part_fits_the_chart(columns, conf.span(), elapsed(info.start, conf.start_ts));
    if 0 < nanos == conf.span() {
        law_full_length_fills_the_chart(columns, conf.span());
    }
}

/// The timeline holds the rows of every span.
pub proof fn law_every_span_has_its_rows(tracker: InterestModel, i: usize) -> (around: (
    Seq<char>,
    Seq<char>,
))
    requires
        i < tracker.children.len() <= usize::MAX,
        infos_of(tracker.children).len() > 0,
    ensures
        tracker.dumped() == around.0 + tracker.rows(tracker.children[i as int]) + around.1,
{
    let order = order_of(tracker.children);
    law_children_have_an_order(tracker.children);
    assert(order.contains(i));
    let k = choose|k: int| 0 <= k < order.len() && order[k] == i;
    let (before, after) = lemma_rows_around(tracker, order, k);
    let around = ("\n"@ + before, after);
    let rows = tracker.rows(tracker.children[i as int]);
    assert("\n"@ + (before + rows + after) =~= around.0 + rows + around.1);
    around
}

proof fn lemma_rows_around(tracker: InterestModel, order: Seq<usize>, k: int) -> (around: (
    Seq<char>,
    Seq<char>,
))
    requires
        0 <= k < order.len(),
    ensures
        tracker.all_rows(order) == around.0 + tracker.rows(tracker.children[order[k] as int])
            + around.1,
    decreases order.len(),
{
    let rows = tracker.rows(tracker.children[order[k] as int]);
    if k == order.len() - 1 {
        let before = tracker.all_rows(order.drop_last());
        assert(before + rows + Seq::<char>::empty() =~= before + rows);
        (before, Seq::empty())
    } else {
        let (before, after) = lemma_rows_around(tracker, order.drop_last(), k);
        let last = tracker.rows(tracker.children[order.last() as int]);
        assert(before + rows + after + last =~= before + rows + (after + last));
        (before, after + last)
    }
}

/// Whether the rows of all events can be laid out at an indentation.
fn all_events_fit(
    events: &Vec<EventInfo>,
    settings: &FieldSettings,
    conf: &RenderConf,
    left: usize,
) -> (fit: bool)
    ensures
        fit == events_fit(events_of(events@), settings@, *conf, left as nat),
{
    let mut i: usize = 0;
    while i < events.len()
        invariant
            i <= events@.len(),
            forall|j: int|
                0 <= j < i ==> (#[trigger] events_of(events@)[j]).row_fits(
                    settings@,
                    *conf,
                    left as nat,
                ),
        decreases events@.len() - i,
    {
        assert(events_of(events@)[i as int] == events@[i as int]@);
        if conf.key_width < 2 || conf.key_width - 2 < left {
            return false;
        }
        let text = events[i].to_string(settings);
        if !cuts_at_char(text.as_str(), conf.key_width - left - 2) {
            return false;
        }
        i = i + 1;
    }
    true
}

impl InterestTracker {
    /// The frame of the timeline, where it has one: spans were opened, and
    /// one has ended.
    fn conf(&self, infos: &Vec<SpanInfo>) -> (conf: Option<RenderConf>)
        requires
            self@.valid(),
            infos@ == infos_of(self@.children),
            infos@.len() > 0,
        ensures
            conf == if latest(infos@) is Some {
                Some(self@.frame())
            } else {
                None
            },
    {
        let (start_ts, end) = extent(infos);
        match end {
            Some(end_ts) => Some(
                RenderConf {
                    start_ts,
                    end_ts,
                    key_width: key_width(&self.children),
                    width: self.render_settings.width,
                },
            ),
            None => None,
        }
    }

    /// Whether every span was opened, and every span around it. The others are
    /// ordered as if they had started at the epoch.
    pub fn knows_starts(&self) -> (b: bool)
        requires
            self@.valid(),
        ensures
            b == starts_known(self@.children),
    {
        let ghost cs = self@.children;
        let mut i: usize = 0;
        while i < self.children.len()
            invariant
                cs == self@.children,
                self@.valid(),
                i <= self.children@.len(),
                forall|j: int, n: int|
                    #![trigger cs[j].path.take(n)]
                    0 <= j < i && 1 <= n <= cs[j].path.len() ==> start_known(
                        cs,
                        cs[j].path.take(n),
                    ),
            decreases self.children@.len() - i,
        {
            let path = self.children[i].path.as_slice();
            assert(cs[i as int].path == path@);
            let mut len: usize = path.len();
            while len > 0
                invariant
                    cs == self@.children,
                    self@.valid(),
                    i < cs.len(),
                    cs[i as int].path == path@,
                    len <= path@.len(),
                    forall|n: int|
                        #![trigger cs[i as int].path.take(n)]
                        len < n <= path@.len() ==> start_known(cs, cs[i as int].path.take(n)),
                decreases len,
            {
                let prefix = vstd::slice::slice_subrange(path, 0, len);
                assert(prefix@ =~= cs[i as int].path.take(len as int));
                let known = match find(&self.children, prefix) {
                    Some(place) => self.children[place].span.info.is_some(),
                    None => false,
                };
                if !known {
                    assert(!start_known(cs, cs[i as int].path.take(len as int)));
                    return false;
                }
                len = len - 1;
            }
            i = i + 1;
        }
        true
    }

    /// Whether the timeline can be laid out: no span was opened, or one has
    /// ended and the keys have room for every row, cut between characters.
    pub fn is_dumpable(&self) -> (b: bool)
        requires
            self@.valid(),
        ensures
            b == self@.can_dump(),
    {
        let infos = self.spans();
        if infos.len() == 0 {
            return true;
        }
        let conf = match self.conf(&infos) {
            Some(conf) => conf,
            None => {
                return false;
            },
        };
        let settings_with_message = self.field_settings.with_message();
        let mut i: usize = 0;
        while i < self.children.len()
            invariant
                self@.valid(),
                conf == self@.frame(),
                settings_with_message@ == self@.field_settings.with_message(),
                infos_of(self@.children).len() > 0,
                i <= self.children@.len(),
                forall|j: int| 0 <= j < i ==> self@.rows_fit(#[trigger] self@.children[j]),
            decreases self.children@.len() - i,
        {
            let child = &self.children[i];
            assert(self@.children[i as int] == child@);
            assert(self@.children[i as int].path.len() > 0);
            if !self.fits(child, &conf, &settings_with_message) {
                return false;
            }
            i = i + 1;
        }
        true
    }

    /// Whether the rows of a child can be laid out.
    fn fits(
        &self,
        child: &Child,
        conf: &RenderConf,
        settings_with_message: &FieldSettings,
    ) -> (b: bool)
        requires
            *conf == self@.frame(),
            settings_with_message@ == self@.field_settings.with_message(),
            child@.path.len() > 0,
        ensures
            b == self@.rows_fit(child@),
    {
        let info = match child.span.info {
            Some(info) => info,
            None => {
                return true;
            },
        };
        let types = self.render_settings.types;
        if child.path.len() - 1 > MAX_KEY_WIDTH {
            proof {
                if child.span.events.len() > 0 {
                    assert(!child@.span.events[0].row_fits(
                        settings_with_message@,
                        *conf,
                        indent(child@),
                    ));
                }
            }
            return !types.spans && (!types.events || child.span.events.len() == 0);
        }
        let left: usize = NESTED_EVENT_OFFSET * (child.path.len() - 1);
        if types.spans {
            if left > conf.key_width {
                return false;
            }
            let name = info.full_name(&child.span, &child.span.settings);
            if !cuts_at_char(name.as_str(), conf.key_width - left) {
                return false;
            }
        }
        if types.events {
            all_events_fit(&child.span.events, settings_with_message, conf, left)
        } else {
            true
        }
    }

    /// Appends the rows of a span's events. The frame starts no later than
    /// the span, since its start is the earliest of all.
    pub fn render_events(
        &self,
        out: &mut String,
        events: &Vec<EventInfo>,
        left_offset: usize,
        render_conf: &RenderConf,
        span_info: &SpanInfo,
        field_settings: &FieldSettings,
    )
        requires
            events_fit(
                events_of(events@),
                field_settings@.with_message(),
                *render_conf,
                left_offset as nat,
            ),
            left_offset + 2 <= render_conf.key_width,
            render_conf.start_ts.nanos <= span_info.start.nanos,
        ensures
            final(out)@ == old(out)@ + event_rows(
                events_of(events@),
                field_settings@.with_message(),
                *render_conf,
                span_info.start,
                left_offset as nat,
            ),
    {
        let since_start = span_info.start.duration_since(render_conf.start_ts).unwrap();
        let base_offset: usize = width(
            render_conf.chart_width(),
            render_conf.total(),
            since_start,
        );
        let settings_with_message = field_settings.with_message();
        let ghost all = events_of(events@);
        let mut i: usize = 0;
        assert(out@ =~= old(out)@ + event_rows(
            all.take(0),
            settings_with_message@,
            *render_conf,
            span_info.start,
            left_offset as nat,
        ));
        while i < events.len()
            invariant
                i <= events@.len(),
                all == events_of(events@),
                settings_with_message@ == field_settings@.with_message(),
                events_fit(all, settings_with_message@, *render_conf, left_offset as nat),
                base_offset == columns_of(
                    render_conf.columns(),
                    render_conf.span(),
                    elapsed(span_info.start, render_conf.start_ts),
                ),
                out@ == old(out)@ + event_rows(
                    all.take(i as int),
                    settings_with_message@,
                    *render_conf,
                    span_info.start,
                    left_offset as nat,
                ),
            decreases events@.len() - i,
        {
            assert(all[i as int] == events@[i as int]@);
            events[i].render(
                out,
                &settings_with_message,
                render_conf,
                span_info.start,
                base_offset,
                left_offset,
            );
            proof {
                let upto = all.take(i + 1);
                assert(upto.drop_last() =~= all.take(i as int));
                assert(upto.last() == all[i as int]);
                assert(out@ =~= old(out)@ + event_rows(
                    upto,
                    settings_with_message@,
                    *render_conf,
                    span_info.start,
                    left_offset as nat,
                ));
            }
            i = i + 1;
        }
        assert(all.take(i as int) =~= all);
    }

    /// Appends the rows of a child: its own, and those of its events.
    fn render_rows(&self, out: &mut String, child: &Child, conf: &RenderConf)
        requires
            child@.path.len() > 0,
            *conf == self@.frame(),
            self@.rows_fit(child@),
            child@.span.info matches Some(info) ==> conf.start_ts.nanos <= info.start.nanos,
        ensures
            final(out)@ == old(out)@ + self@.rows(child@),
    {
        if let Some(info) = child.span.info {
            let types = self.render_settings.types;
            if types.spans {
                let offset: usize = NESTED_EVENT_OFFSET * (child.path.len() - 1);
                info.render(out, &child.span, &self.render_settings, conf, offset);
            }
            if types.events && child.span.events.len() > 0 {
                assert(child@.span.events[0].row_fits(
                    self@.field_settings.with_message(),
                    *conf,
                    indent(child@),
                ));
                let offset: usize = NESTED_EVENT_OFFSET * (child.path.len() - 1);
                self.render_events(
                    out,
                    &child.span.events,
                    offset,
                    conf,
                    &info,
                    &self.field_settings,
                );
            }
        }
        assert(out@ =~= old(out)@ + self@.rows(child@));
    }

    /// The timeline of the examined span: a row for each span that has ended,
    /// in order of their starts, each followed by rows of its events. Leads
    /// with a blank line, so that it doesn't jam against whatever was written
    /// just before.
    pub fn dump(&self) -> (text: String)
        requires
            self@.valid(),
            self@.can_dump(),
        ensures
            text@ == self@.dumped(),
    {
        let infos = self.spans();
        let mut out = String::new();
        if infos.len() == 0 {
            out.append("no events...");
            assert(out@ =~= "no events..."@);
            return out;
        }
        out.append("\n");
        let conf = self.conf(&infos).unwrap();
        let ordered = display_order(&self.children);
        let ghost order = ordered@;
        proof {
            law_order_is_unique(self@.children, order, order_of(self@.children));
            assert(out@ =~= "\n"@ + self@.all_rows(order.take(0)));
        }
        let mut i: usize = 0;
        while i < ordered.len()
            invariant
                order == ordered@,
                is_order(self@.children, order),
                self@.valid(),
                self@.can_dump(),
                infos_of(self@.children).len() > 0,
                conf == self@.frame(),
                i <= order.len(),
                out@ == "\n"@ + self@.all_rows(order.take(i as int)),
            decreases order.len() - i,
        {
            let place: usize = ordered[i];
            let child = &self.children[place];
            proof {
                assert(self@.children[place as int] == child@);
                assert(self@.rows_fit(self@.children[place as int]));
                assert(child@.path.len() > 0);
            }
            proof {
                if child@.span.info is Some {
                    lemma_info_listed(self@.children, place as int);
                    let all = infos_of(self@.children);
                    let k = choose|k: int| 0 <= k < all.len() && all[k] == child@.span.info->0;
                    lemma_earliest(all, k);
                }
            }
            self.render_rows(&mut out, child, &conf);
            proof {
                assert(order.take(i + 1).drop_last() =~= order.take(i as int));
                assert(order.take(i + 1).last() == place);
                assert(out@ =~= "\n"@ + self@.all_rows(order.take(i + 1)));
            }
            i = i + 1;
        }
        assert(order.take(i as int) =~= order);
        out
    }
}

} // verus!
