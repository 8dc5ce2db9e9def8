//! Global properties of the builder: nesting depth, order preservation, and
//! determinism.

use vstd::prelude::*;
use crate::ident::{id_parses, parsed_id, NamedId};
use crate::root::{
    append_top, build_spec, close_all, item_view, items_view, pop_attach, run, EntryView,
    FrameView, Item, ItemView, lemma_run_stack_nonempty, RootPlaylistEntry,
};
use crate::uri::{is_end_group, is_playlist_ref, is_start_group};

verus! {

pub open spec fn nat_max(a: nat, b: nat) -> nat {
    if a >= b {
        a
    } else {
        b
    }
}

pub open spec fn int_max(a: int, b: int) -> int {
    if a >= b {
        a
    } else {
        b
    }
}

/// Group-nesting depth of a node: playlists sit at depth zero.
pub open spec fn item_depth(v: ItemView) -> nat
    decreases v,
{
    match v {
        ItemView::Playlist { .. } => 0,
        ItemView::Group { children, .. } => 1 + forest_depth(children),
    }
}

/// Depth of a forest: the greatest depth among its nodes.
pub open spec fn forest_depth(s: Seq<ItemView>) -> nat
    decreases s,
{
    if s.len() == 0 {
        0
    } else {
        nat_max(forest_depth(s.drop_last()), item_depth(s.last()))
    }
}

proof fn lemma_forest_depth_push(s: Seq<ItemView>, x: ItemView)
    ensures
        forest_depth(s.push(x)) == nat_max(forest_depth(s), item_depth(x)),
{
    assert(s.push(x).drop_last() =~= s);
}

/// How an entry changes the number of open groups.
pub open spec fn nest_delta(e: EntryView) -> int {
    if is_start_group(e.uri) {
        1
    } else if is_end_group(e.uri) {
        -1
    } else {
        0
    }
}

/// Number of groups still open after `es`: `start-group` markers minus
/// `end-group` markers.
pub open spec fn open_count(es: Seq<EntryView>) -> int
    decreases es.len(),
{
    if es.len() == 0 {
        0
    } else {
        open_count(es.drop_last()) + nest_delta(es.last())
    }
}

/// No prefix closes more groups than were opened before it.
pub open spec fn prefixes_nonneg(es: Seq<EntryView>) -> bool {
    forall|i: int| 0 <= i <= es.len() ==> #[trigger] open_count(es.subrange(0, i)) >= 0
}

/// A balanced marker grammar: every `end-group` closes an open group, and
/// every group is closed by end of input.
pub open spec fn balanced(es: Seq<EntryView>) -> bool {
    prefixes_nonneg(es) && open_count(es) == 0
}

/// The maximum marker-nesting depth over all prefixes of the input.
pub open spec fn max_nest(es: Seq<EntryView>) -> int
    decreases es.len(),
{
    if es.len() == 0 {
        0
    } else {
        int_max(max_nest(es.drop_last()), open_count(es))
    }
}

proof fn lemma_open_le_max_nest(es: Seq<EntryView>)
    ensures
        open_count(es) <= max_nest(es),
{
}

/// The depth the stack would produce if closed now: the greatest, over all
/// frames, of the frame's nesting level plus the depth of its children.
pub open spec fn stack_measure(st: Seq<FrameView>) -> int
    decreases st.len(),
{
    if st.len() == 0 {
        0
    } else if st.len() == 1 {
        forest_depth(st[0].children) as int
    } else {
        int_max(stack_measure(st.drop_last()), st.len() - 1 + forest_depth(st.last().children))
    }
}

proof fn lemma_measure_append(st: Seq<FrameView>, it: ItemView)
    requires
        st.len() >= 1,
    ensures
        stack_measure(append_top(st, it)) == int_max(
            stack_measure(st),
            st.len() - 1 + item_depth(it),
        ),
{
    let n = st.len() as int;
    let st2 = append_top(st, it);
    lemma_forest_depth_push(st[n - 1].children, it);
    if n == 1 {
        assert(st2.len() == 1);
        assert(st2[0].children == st[0].children.push(it));
    } else {
        assert(st2.drop_last() =~= st.drop_last());
        assert(st2.last().children == st[n - 1].children.push(it));
    }
}

proof fn lemma_measure_pop_attach(st: Seq<FrameView>)
    requires
        st.len() >= 2,
    ensures
        stack_measure(pop_attach(st)) == stack_measure(st),
{
    let n = st.len() as int;
    let closed = ItemView::Group { name: st[n - 1].name, children: st[n - 1].children };
    lemma_measure_append(st.drop_last(), closed);
    assert(item_depth(closed) == 1 + forest_depth(st[n - 1].children));
    if n == 2 {
        assert(stack_measure(st.drop_last()) == forest_depth(st[0].children) as int);
    }
}

proof fn lemma_measure_push_empty(st: Seq<FrameView>, f: FrameView)
    requires
        st.len() >= 1,
        f.children == Seq::<ItemView>::empty(),
    ensures
        stack_measure(st.push(f)) == int_max(stack_measure(st), st.len() as int),
{
    assert(st.push(f).drop_last() =~= st);
    assert(forest_depth(f.children) == 0);
}

proof fn lemma_run_measure(es: Seq<EntryView>)
    requires
        prefixes_nonneg(es),
        run(es) is Some,
    ensures
        run(es)->Some_0.len() == open_count(es) + 1,
        stack_measure(run(es)->Some_0) == max_nest(es),
    decreases es.len(),
{
    if es.len() == 0 {
        assert(stack_measure(run(es)->Some_0) == forest_depth(Seq::<ItemView>::empty()) as int);
    } else {
        let p = es.drop_last();
        let e = es.last();
        assert forall|i: int| 0 <= i <= p.len() implies #[trigger] open_count(
            p.subrange(0, i),
        ) >= 0 by {
            assert(p.subrange(0, i) =~= es.subrange(0, i));
            assert(open_count(es.subrange(0, i)) >= 0);
        }
        lemma_run_measure(p);
        let st = run(p)->Some_0;
        lemma_open_le_max_nest(p);
        if is_start_group(e.uri) {
            lemma_measure_push_empty(st, run(es)->Some_0.last());
            assert(run(es)->Some_0.drop_last() =~= st);
        } else if is_end_group(e.uri) {
            if st.len() > 1 {
                lemma_measure_pop_attach(st);
            } else {
                assert(es.subrange(0, es.len() as int) =~= es);
                assert(open_count(es.subrange(0, es.len() as int)) >= 0);
                assert(false);
            }
        } else {
            lemma_measure_append(
                st,
                ItemView::Playlist { id: parsed_id(e.uri), timestamp: e.timestamp },
            );
        }
    }
}

/// For a balanced marker grammar, the depth of the resulting forest equals
/// the maximum marker-nesting depth of the input.
pub proof fn lemma_depth_equals_nesting(es: Seq<EntryView>)
    requires
        balanced(es),
        build_spec(es) is Some,
    ensures
        forest_depth(build_spec(es)->Some_0) == max_nest(es),
{
    lemma_run_measure(es);
    let st = run(es)->Some_0;
    assert(st.len() == 1);
    assert(close_all(st) == st);
}

/// The in-order sequence of playlist nodes below a node.
pub open spec fn flatten_item(v: ItemView) -> Seq<ItemView>
    decreases v,
{
    match v {
        ItemView::Playlist { .. } => seq![v],
        ItemView::Group { children, .. } => flatten_forest(children),
    }
}

/// The in-order sequence of playlist nodes in a forest, ignoring group
/// boundaries.
pub open spec fn flatten_forest(s: Seq<ItemView>) -> Seq<ItemView>
    decreases s,
{
    if s.len() == 0 {
        Seq::empty()
    } else {
        flatten_forest(s.drop_last()) + flatten_item(s.last())
    }
}

/// The playlist node an entry contributes.
pub open spec fn ref_item(e: EntryView) -> ItemView {
    ItemView::Playlist { id: parsed_id(e.uri), timestamp: e.timestamp }
}

/// The playlist nodes of all playlist-reference entries of the input, in
/// input order.
pub open spec fn ref_items(es: Seq<EntryView>) -> Seq<ItemView>
    decreases es.len(),
{
    if es.len() == 0 {
        Seq::empty()
    } else {
        ref_items(es.drop_last()) + (if is_playlist_ref(es.last().uri) {
            seq![ref_item(es.last())]
        } else {
            Seq::empty()
        })
    }
}

/// The in-order playlist nodes of every frame of the stack, bottom first.
pub open spec fn flatten_stack(st: Seq<FrameView>) -> Seq<ItemView>
    decreases st.len(),
{
    if st.len() == 0 {
        Seq::empty()
    } else {
        flatten_stack(st.drop_last()) + flatten_forest(st.last().children)
    }
}

proof fn lemma_flatten_forest_push(s: Seq<ItemView>, x: ItemView)
    ensures
        flatten_forest(s.push(x)) == flatten_forest(s) + flatten_item(x),
{
    assert(s.push(x).drop_last() =~= s);
}

proof fn lemma_flatten_append(st: Seq<FrameView>, it: ItemView)
    requires
        st.len() >= 1,
    ensures
        flatten_stack(append_top(st, it)) == flatten_stack(st) + flatten_item(it),
{
    let n = st.len() as int;
    let st2 = append_top(st, it);
    lemma_flatten_forest_push(st[n - 1].children, it);
    assert(st2.drop_last() =~= st.drop_last());
    assert(st2.last().children == st[n - 1].children.push(it));
    assert(flatten_stack(st.drop_last()) + (flatten_forest(st[n - 1].children) + flatten_item(it))
        =~= (flatten_stack(st.drop_last()) + flatten_forest(st[n - 1].children)) + flatten_item(
        it,
    ));
}

proof fn lemma_flatten_pop_attach(st: Seq<FrameView>)
    requires
        st.len() >= 2,
    ensures
        flatten_stack(pop_attach(st)) == flatten_stack(st),
{
    let n = st.len() as int;
    let closed = ItemView::Group { name: st[n - 1].name, children: st[n - 1].children };
    lemma_flatten_append(st.drop_last(), closed);
    assert(flatten_item(closed) == flatten_forest(st[n - 1].children));
}

proof fn lemma_run_flatten(es: Seq<EntryView>)
    requires
        run(es) is Some,
    ensures
        flatten_stack(run(es)->Some_0) == ref_items(es),
    decreases es.len(),
{
    if es.len() == 0 {
        let st = run(es)->Some_0;
        assert(st.drop_last() =~= Seq::<FrameView>::empty());
        assert(flatten_stack(st.drop_last()) =~= Seq::<ItemView>::empty());
        assert(flatten_forest(st.last().children) =~= Seq::<ItemView>::empty());
        assert(flatten_stack(st) =~= Seq::<ItemView>::empty());
    } else {
        let p = es.drop_last();
        let e = es.last();
        lemma_run_flatten(p);
        lemma_run_stack_nonempty(p);
        let st = run(p)->Some_0;
        if is_start_group(e.uri) {
            assert(run(es)->Some_0.drop_last() =~= st);
            assert(flatten_forest(run(es)->Some_0.last().children) =~= Seq::<ItemView>::empty());
            assert(flatten_stack(run(es)->Some_0) =~= flatten_stack(st));
            assert(ref_items(es) =~= ref_items(p));
        } else if is_end_group(e.uri) {
            if st.len() > 1 {
                lemma_flatten_pop_attach(st);
            }
            assert(ref_items(es) =~= ref_items(p));
        } else {
            lemma_flatten_append(st, ref_item(e));
            assert(flatten_item(ref_item(e)) == seq![ref_item(e)]);
        }
    }
}

proof fn lemma_close_all_flatten(st: Seq<FrameView>)
    requires
        st.len() >= 1,
    ensures
        close_all(st).len() == 1,
        flatten_stack(close_all(st)) == flatten_stack(st),
    decreases st.len(),
{
    if st.len() > 1 {
        lemma_flatten_pop_attach(st);
        lemma_close_all_flatten(pop_attach(st));
    }
}

/// Flattening the resulting forest depth-first while ignoring group
/// boundaries reproduces the playlist-reference entries of the input, in
/// input order.
pub proof fn lemma_flatten_reproduces_refs(es: Seq<EntryView>)
    requires
        build_spec(es) is Some,
    ensures
        flatten_forest(build_spec(es)->Some_0) == ref_items(es),
{
    lemma_run_flatten(es);
    lemma_run_stack_nonempty(es);
    let st = run(es)->Some_0;
    lemma_close_all_flatten(st);
    let last = close_all(st);
    assert(flatten_stack(last) =~= flatten_stack(last.drop_last()) + flatten_forest(
        last.last().children,
    ));
    assert(flatten_stack(last.drop_last()) =~= Seq::<ItemView>::empty());
    assert(flatten_forest(build_spec(es)->Some_0) == flatten_stack(st));
}

/// The playlist nodes a sequence of collected references stands for.
pub open spec fn entry_refs(s: Seq<RootPlaylistEntry>) -> Seq<ItemView> {
    s.map_values(
        |e: RootPlaylistEntry| ItemView::Playlist { id: e.id@, timestamp: e.timestamp as int },
    )
}

fn flatten_into(items: &Vec<Item>, out: &mut Vec<RootPlaylistEntry>)
    ensures
        entry_refs(final(out)@) == entry_refs(old(out)@) + flatten_forest(items_view(items@)),
    decreases *items,
{
    let ghost base = old(out)@;
    let mut i: usize = 0;
    proof {
        assert(items@.subrange(0, 0) =~= Seq::<Item>::empty());
        assert(items_view(items@.subrange(0, 0)) =~= Seq::<ItemView>::empty());
        assert(flatten_forest(items_view(items@.subrange(0, 0))) =~= Seq::<ItemView>::empty());
        assert(entry_refs(base) + Seq::<ItemView>::empty() =~= entry_refs(base));
    }
    while i < items.len()
        invariant
            i <= items@.len(),
            entry_refs(out@) == entry_refs(base) + flatten_forest(
                items_view(items@.subrange(0, i as int)),
            ),
        decreases items@.len() - i,
    {
        let ghost pre = items@.subrange(0, i as int);
        let ghost post = items@.subrange(0, i + 1);
        let ghost cur = items@[i as int];
        proof {
            assert(post.drop_last() =~= pre);
            assert(post.last() == cur);
            assert(items_view(post) == items_view(pre).push(item_view(cur)));
            lemma_flatten_forest_push(items_view(pre), item_view(cur));
        }
        let ghost outpre = out@;
        match &items[i] {
            Item::Playlist(e) => {
                let copied = RootPlaylistEntry {
                    id: NamedId {
                        username: e.id.username.clone(),
                        kind: e.id.kind.clone(),
                        id: e.id.id.clone(),
                    },
                    timestamp: e.timestamp,
                };
                proof {
                    assert(ItemView::Playlist {
                        id: copied.id@,
                        timestamp: copied.timestamp as int,
                    } == item_view(cur));
                }
                out.push(copied);
                proof {
                    assert(entry_refs(out@) =~= entry_refs(outpre).push(item_view(cur)));
                    assert(flatten_item(item_view(cur)) == seq![item_view(cur)]);
                    assert(entry_refs(outpre).push(item_view(cur)) =~= entry_refs(base)
                        + flatten_forest(items_view(post)));
                }
            },
            Item::Group(_, children) => {
                proof {
                    assert(decreases_to!(*items => items@));
                    assert(decreases_to!(items@ => items@[i as int]));
                    assert(decreases_to!(items@[i as int] => items@[i as int]->Group_1));
                    assert(items@[i as int]->Group_1 == *children);
                }
                flatten_into(children, out);
                proof {
                    assert(flatten_item(item_view(cur)) == flatten_forest(
                        items_view(children@),
                    ));
                    assert((entry_refs(base) + flatten_forest(items_view(pre))) + flatten_forest(
                        items_view(children@),
                    ) =~= entry_refs(base) + flatten_forest(items_view(post)));
                }
            },
        }
        i += 1;
    }
    proof {
        assert(items@.subrange(0, items@.len() as int) =~= items@);
    }
}

/// The playlist references below `items`, depth-first and in order,
/// ignoring group boundaries.
pub fn flatten_playlists(items: &Vec<Item>) -> (r: Vec<RootPlaylistEntry>)
    ensures
        entry_refs(r@) == flatten_forest(items_view(items@)),
{
    let mut out: Vec<RootPlaylistEntry> = Vec::new();
    proof {
        assert(entry_refs(Seq::<RootPlaylistEntry>::empty()) =~= Seq::<ItemView>::empty());
    }
    flatten_into(items, &mut out);
    proof {
        assert(Seq::<ItemView>::empty() + flatten_forest(items_view(items@)) =~= flatten_forest(
            items_view(items@),
        ));
    }
    out
}

/// An `end-group` with no open group beyond the root is tolerated and
/// ignored: it changes nothing in the builder's state.
pub proof fn lemma_root_end_group_ignored(es: Seq<EntryView>, e: EntryView)
    requires
        is_end_group(e.uri),
        run(es) is Some,
        run(es)->Some_0.len() == 1,
    ensures
        run(es.push(e)) == run(es),
{
    reveal_strlit("start-group");
    reveal_strlit("end-group");
    assert(!is_start_group(e.uri)) by {
        assert("start-group"@.len() == 11);
        assert("end-group"@.len() == 9);
    }
    assert(es.push(e).drop_last() =~= es);
    assert(es.push(e).last() == e);
}

/// The builder fails exactly when the input holds a playlist-reference URI
/// that does not parse; nothing else is fatal.
pub proof fn lemma_failure_characterized(es: Seq<EntryView>)
    ensures
        build_spec(es) is None <==> exists|i: int|
            0 <= i < es.len() && is_playlist_ref(#[trigger] es[i].uri) && !id_parses(es[i].uri),
    decreases es.len(),
{
    if es.len() > 0 {
        let p = es.drop_last();
        let e = es.last();
        lemma_failure_characterized(p);
        if run(es) is None {
            if run(p) is None {
                let i = choose|i: int|
                    0 <= i < p.len() && is_playlist_ref(#[trigger] p[i].uri) && !id_parses(
                        p[i].uri,
                    );
                assert(is_playlist_ref(es[i].uri) && !id_parses(es[i].uri));
            } else {
                assert(is_playlist_ref(es[es.len() - 1].uri) && !id_parses(
                    es[es.len() - 1].uri,
                ));
            }
        } else {
            assert(run(p) is Some);
            assert forall|i: int|
                0 <= i < es.len() && is_playlist_ref(#[trigger] es[i].uri) implies id_parses(
                es[i].uri,
            ) by {
                if i < es.len() - 1 {
                    assert(is_playlist_ref(p[i].uri));
                }
            }
        }
    }
}

/// The builder is deterministic: one input has one forest.
pub proof fn lemma_builder_deterministic(
    es: Seq<EntryView>,
    f1: Seq<ItemView>,
    f2: Seq<ItemView>,
)
    requires
        build_spec(es) == Some(f1),
        build_spec(es) == Some(f2),
    ensures
        f1 == f2,
{
}

} // verus!
