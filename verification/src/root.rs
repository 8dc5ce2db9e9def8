//! The hierarchy builder: from a flat, marker-delimited listing to a nested
//! forest of playlists and named groups.

use vstd::prelude::*;
use crate::ident::{id_parses, parsed_id, IdentifierParseError, NamedId, NamedIdView};
use crate::uri::{
    group_name, is_end_group, is_playlist_ref, is_start_group, marker_wf, seg_views, segments,
    split_colons, str_eq,
};

verus! {

/// One line of the flat listing: an opaque URI and the time the line was
/// added.
#[derive(Debug, Clone)]
pub struct Entry {
    pub uri: String,
    pub timestamp: i64,
}

/// Mathematical content of an [`Entry`].
pub struct EntryView {
    pub uri: Seq<char>,
    pub timestamp: int,
}

impl View for Entry {
    type V = EntryView;

    open spec fn view(&self) -> EntryView {
        EntryView { uri: self.uri@, timestamp: self.timestamp as int }
    }
}

/// The views of a sequence of entries.
pub open spec fn entry_views(s: Seq<Entry>) -> Seq<EntryView> {
    s.map_values(|e: Entry| e@)
}

/// A parsed playlist reference together with the time it was added.
#[derive(Debug, Clone)]
pub struct RootPlaylistEntry {
    pub id: NamedId,
    pub timestamp: i64,
}

/// One node of the forest: a playlist reference, or a named group holding an
/// ordered sequence of child nodes.
#[derive(Debug)]
pub enum Item {
    Playlist(RootPlaylistEntry),
    Group(String, Vec<Item>),
}

/// Mathematical content of an [`Item`]: the same tree over sequences.
#[verifier::ext_equal]
pub enum ItemView {
    Playlist { id: NamedIdView, timestamp: int },
    Group { name: Seq<char>, children: Seq<ItemView> },
}

/// The view of a single node.
pub open spec fn item_view(i: Item) -> ItemView
    decreases i,
{
    match i {
        Item::Playlist(e) => ItemView::Playlist { id: e.id@, timestamp: e.timestamp as int },
        Item::Group(name, children) => ItemView::Group {
            name: name@,
            children: items_view(children@),
        },
    }
}

/// The views of a sequence of nodes, in order.
pub open spec fn items_view(s: Seq<Item>) -> Seq<ItemView>
    decreases s,
{
    if s.len() == 0 {
        Seq::empty()
    } else {
        items_view(s.drop_last()).push(item_view(s.last()))
    }
}

pub proof fn lemma_items_view_len(s: Seq<Item>)
    ensures
        items_view(s).len() == s.len(),
    decreases s,
{
    if s.len() > 0 {
        lemma_items_view_len(s.drop_last());
    }
}

pub proof fn lemma_items_view_index(s: Seq<Item>, i: int)
    requires
        0 <= i < s.len(),
    ensures
        items_view(s).len() == s.len(),
        items_view(s)[i] == item_view(s[i]),
    decreases s,
{
    lemma_items_view_len(s);
    if i < s.len() - 1 {
        lemma_items_view_index(s.drop_last(), i);
    }
}

impl View for Item {
    type V = ItemView;

    open spec fn view(&self) -> ItemView {
        item_view(*self)
    }
}

/// An open group still being filled: its display name and the completed
/// nodes collected so far, in input order.
pub struct FrameView {
    pub name: Seq<char>,
    pub children: Seq<ItemView>,
}

/// The frame the builder starts with: the root of the forest.
pub open spec fn root_frame() -> FrameView {
    FrameView { name: Seq::empty(), children: Seq::empty() }
}

/// Opening a group pushes a fresh, empty frame carrying the display name of
/// its `start-group` marker.
pub open spec fn push_frame(stack: Seq<FrameView>, u: Seq<char>) -> Seq<FrameView> {
    stack.push(FrameView { name: group_name(u), children: Seq::empty() })
}

/// Appends a completed node to the innermost open frame.
pub open spec fn append_top(stack: Seq<FrameView>, it: ItemView) -> Seq<FrameView>
    recommends
        stack.len() >= 1,
{
    let n = stack.len() as int;
    stack.update(
        n - 1,
        FrameView { name: stack[n - 1].name, children: stack[n - 1].children.push(it) },
    )
}

/// Closing a group pops the innermost frame, wraps its children in a
/// `Group` node, and appends that node to the frame below.
pub open spec fn pop_attach(stack: Seq<FrameView>) -> Seq<FrameView>
    recommends
        stack.len() >= 2,
{
    let n = stack.len() as int;
    append_top(
        stack.drop_last(),
        ItemView::Group { name: stack[n - 1].name, children: stack[n - 1].children },
    )
}

/// One step of the builder.  A `start-group` opens a frame; an `end-group`
/// closes the innermost one, and is tolerated and ignored when only the root
/// frame remains; anything else is a playlist reference, appended to the
/// innermost frame when it parses and fatal when it does not.
pub open spec fn step(stack: Seq<FrameView>, e: EntryView) -> Option<Seq<FrameView>> {
    if is_start_group(e.uri) {
        Some(push_frame(stack, e.uri))
    } else if is_end_group(e.uri) {
        if stack.len() > 1 {
            Some(pop_attach(stack))
        } else {
            Some(stack)
        }
    } else if id_parses(e.uri) {
        Some(append_top(stack, ItemView::Playlist { id: parsed_id(e.uri), timestamp: e.timestamp }))
    } else {
        None
    }
}

/// The frame stack after consuming all of `es`, or `None` once a playlist
/// reference has failed to parse.
pub open spec fn run(es: Seq<EntryView>) -> Option<Seq<FrameView>>
    decreases es.len(),
{
    if es.len() == 0 {
        Some(seq![root_frame()])
    } else {
        match run(es.drop_last()) {
            Some(st) => step(st, es.last()),
            None => None,
        }
    }
}

/// Folds every frame still open at end of input into its parent, exactly as
/// an `end-group` would, in reverse order of opening.
pub open spec fn close_all(stack: Seq<FrameView>) -> Seq<FrameView>
    decreases stack.len(),
{
    if stack.len() <= 1 {
        stack
    } else {
        close_all(pop_attach(stack))
    }
}

/// The forest the builder produces for `es`, or `None` once a playlist
/// reference has failed to parse.
pub open spec fn build_spec(es: Seq<EntryView>) -> Option<Seq<ItemView>> {
    match run(es) {
        Some(st) => Some(close_all(st)[0].children),
        None => None,
    }
}

/// Every entry read as a marker carries the segments read off it.
pub open spec fn entries_wf(es: Seq<EntryView>) -> bool {
    forall|i: int| 0 <= i < es.len() ==> #[trigger] marker_wf(es[i].uri)
}

/// The stack never loses its root frame.
pub proof fn lemma_run_stack_nonempty(es: Seq<EntryView>)
    requires
        run(es) is Some,
    ensures
        run(es)->Some_0.len() >= 1,
    decreases es.len(),
{
    if es.len() > 0 {
        lemma_run_stack_nonempty(es.drop_last());
    }
}

/// Once a parse failure has occurred, it persists to every extension of the
/// input.
pub proof fn lemma_run_none_extends(es: Seq<EntryView>, i: int)
    requires
        0 <= i <= es.len(),
        run(es.subrange(0, i)) is None,
    ensures
        run(es) is None,
    decreases es.len() - i,
{
    if i < es.len() {
        assert(es.subrange(0, i + 1).drop_last() =~= es.subrange(0, i));
        assert(es.subrange(0, i + 1).len() == i + 1);
        lemma_run_none_extends(es, i + 1);
    } else {
        assert(es.subrange(0, es.len() as int) =~= es);
    }
}

/// Appending a node keeps the earlier views and adds the view of the node.
pub proof fn lemma_items_view_push(s: Seq<Item>, x: Item)
    ensures
        items_view(s.push(x)) == items_view(s).push(item_view(x)),
{
    assert(s.push(x).drop_last() =~= s);
    assert(s.push(x).last() == x);
}

/// Structural equality of two nodes.
pub fn item_eq(a: &Item, b: &Item) -> (r: bool)
    ensures
        r == (a@ == b@),
    decreases *a,
{
    match (a, b) {
        (Item::Playlist(x), Item::Playlist(y)) => {
            crate::ident::id_eq(&x.id, &y.id) && x.timestamp == y.timestamp
        },
        (Item::Group(n1, c1), Item::Group(n2, c2)) => {
            if !str_eq(n1.as_str(), n2.as_str()) {
                return false;
            }
            if c1.len() != c2.len() {
                proof {
                    lemma_items_view_len(c1@);
                    lemma_items_view_len(c2@);
                }
                return false;
            }
            let mut j: usize = 0;
            while j < c1.len()
                invariant
                    j <= c1.len(),
                    c1@.len() == c2@.len(),
                    n1@ == n2@,
                    *a == Item::Group(*n1, *c1),
                    *b == Item::Group(*n2, *c2),
                    forall|k: int| 0 <= k < j ==> item_view(c1@[k]) == item_view(c2@[k]),
                decreases c1@.len() - j,
            {
                proof {
                    assert(decreases_to!(*a => a->Group_1));
                    assert(a->Group_1 == *c1);
                    assert(decreases_to!(*c1 => c1@));
                    assert(decreases_to!(c1@ => c1@[j as int]));
                }
                if !item_eq(&c1[j], &c2[j]) {
                    proof {
                        lemma_items_view_index(c1@, j as int);
                        lemma_items_view_index(c2@, j as int);
                    }
                    return false;
                }
                j += 1;
            }
            proof {
                lemma_items_view_len(c1@);
                lemma_items_view_len(c2@);
                assert forall|k: int| 0 <= k < items_view(c1@).len() implies items_view(c1@)[k]
                    == items_view(c2@)[k] by {
                    lemma_items_view_index(c1@, k);
                    lemma_items_view_index(c2@, k);
                }
                assert(items_view(c1@) =~= items_view(c2@));
            }
            true
        },
        _ => false,
    }
}

/// Structural equality of two forests.
pub fn forest_eq(a: &Vec<Item>, b: &Vec<Item>) -> (r: bool)
    ensures
        r == (items_view(a@) == items_view(b@)),
{
    proof {
        lemma_items_view_len(a@);
        lemma_items_view_len(b@);
    }
    if a.len() != b.len() {
        return false;
    }
    let mut j: usize = 0;
    while j < a.len()
        invariant
            j <= a.len(),
            a@.len() == b@.len(),
            forall|k: int| 0 <= k < j ==> item_view(a@[k]) == item_view(b@[k]),
        decreases a@.len() - j,
    {
        if !item_eq(&a[j], &b[j]) {
            proof {
                lemma_items_view_index(a@, j as int);
                lemma_items_view_index(b@, j as int);
            }
            return false;
        }
        j += 1;
    }
    proof {
        lemma_items_view_len(a@);
        lemma_items_view_len(b@);
        assert forall|k: int| 0 <= k < items_view(a@).len() implies items_view(a@)[k]
            == items_view(b@)[k] by {
            lemma_items_view_index(a@, k);
            lemma_items_view_index(b@, k);
        }
        assert(items_view(a@) =~= items_view(b@));
    }
    true
}

/// An open group under construction: its display name and the completed
/// child nodes collected so far.
struct Frame {
    name: String,
    children: Vec<Item>,
}

spec fn frame_view(f: Frame) -> FrameView {
    FrameView { name: f.name@, children: items_view(f.children@) }
}

spec fn stack_views(s: Seq<Frame>) -> Seq<FrameView> {
    s.map_values(|f: Frame| frame_view(f))
}

proof fn lemma_stack_views_push(s: Seq<Frame>, f: Frame)
    requires
        f.children@ == Seq::<Item>::empty(),
    ensures
        stack_views(s.push(f)) == stack_views(s).push(
            FrameView { name: f.name@, children: Seq::empty() },
        ),
{
    assert(items_view(f.children@) =~= Seq::<ItemView>::empty());
    assert(stack_views(s.push(f)) =~= stack_views(s).push(frame_view(f)));
}

proof fn lemma_stack_views_append(s: Seq<Frame>, merged: Frame, it: Item)
    requires
        s.len() >= 1,
        merged.name == s[s.len() - 1].name,
        merged.children@ == s[s.len() - 1].children@.push(it),
    ensures
        stack_views(s.subrange(0, s.len() - 1).push(merged)) == append_top(
            stack_views(s),
            item_view(it),
        ),
{
    let n = s.len() as int;
    lemma_items_view_push(s[n - 1].children@, it);
    assert(frame_view(merged) == FrameView {
        name: s[n - 1].name@,
        children: items_view(s[n - 1].children@).push(item_view(it)),
    });
    assert(stack_views(s.subrange(0, n - 1).push(merged)) =~= append_top(
        stack_views(s),
        item_view(it),
    ));
}

proof fn lemma_stack_views_attach(s: Seq<Frame>, merged: Frame)
    requires
        s.len() >= 2,
        merged.name == s[s.len() - 2].name,
        merged.children@ == s[s.len() - 2].children@.push(
            Item::Group(s[s.len() - 1].name, s[s.len() - 1].children),
        ),
    ensures
        stack_views(s.subrange(0, s.len() - 2).push(merged)) == pop_attach(stack_views(s)),
{
    let n = s.len() as int;
    let closed = Item::Group(s[n - 1].name, s[n - 1].children);
    assert(item_view(closed) == ItemView::Group {
        name: s[n - 1].name@,
        children: items_view(s[n - 1].children@),
    });
    assert(s.drop_last().subrange(0, n - 2) =~= s.subrange(0, n - 2));
    lemma_stack_views_append(s.drop_last(), merged, closed);
    assert(stack_views(s.drop_last()) =~= stack_views(s).drop_last());
}

/// The assembled forest: the top-level ordered sequence of nodes.
#[derive(Debug)]
pub struct RootPlaylist {
    pub items: Vec<Item>,
}

impl View for RootPlaylist {
    type V = Seq<ItemView>;

    open spec fn view(&self) -> Seq<ItemView> {
        items_view(self.items@)
    }
}

/// Decides [`entries_wf`]: whether every marker among `entries` carries the
/// segments the builder reads off it.
pub fn entries_admissible(entries: &Vec<Entry>) -> (b: bool)
    ensures
        b == entries_wf(entry_views(entries@)),
{
    let ghost evs = entry_views(entries@);
    let mut i: usize = 0;
    while i < entries.len()
        invariant
            i <= entries.len(),
            evs == entry_views(entries@),
            forall|k: int| 0 <= k < i ==> #[trigger] marker_wf(evs[k].uri),
        decreases entries.len() - i,
    {
        let e = &entries[i];
        let ghost u = e.uri@;
        proof {
            assert(evs[i as int] == entries@[i as int]@);
        }
        let segs = split_colons(e.uri.as_str());
        proof {
            assert(seg_views(segs@).len() == segs@.len());
        }
        let start = segs.len() >= 2 && str_eq(segs[1].as_str(), "start-group");
        let end = segs.len() >= 2 && str_eq(segs[1].as_str(), "end-group");
        proof {
            if segs@.len() >= 2 {
                assert(seg_views(segs@)[1] == segs@[1]@);
            }
            assert(start == is_start_group(u));
            assert(end == is_end_group(u));
        }
        if start && segs.len() < 4 {
            proof {
                assert(!marker_wf(evs[i as int].uri));
            }
            return false;
        }
        if end && segs.len() < 3 {
            proof {
                assert(!marker_wf(evs[i as int].uri));
            }
            return false;
        }
        i += 1;
    }
    true
}

impl RootPlaylist {
    /// Builds the forest from the flat listing, processing entries strictly
    /// in order: `start-group` opens a group, `end-group` closes the
    /// innermost open group (and is tolerated and ignored at the root),
    /// anything else is a playlist reference.  Groups still open at end of
    /// input close implicitly.  The first playlist reference that fails to
    /// parse aborts the whole operation; no partial forest is returned.
    pub fn from_entries(entries: &Vec<Entry>) -> (r: Result<RootPlaylist, IdentifierParseError>)
        requires
            entries_wf(entry_views(entries@)),
        ensures
            match r {
                Ok(p) => build_spec(entry_views(entries@)) == Some(p@),
                Err(_) => build_spec(entry_views(entries@)) is None,
            },
    {
        let ghost evs = entry_views(entries@);
        let mut stack: Vec<Frame> = Vec::new();
        stack.push(Frame { name: String::new(), children: Vec::new() });
        proof {
            assert(evs.subrange(0, 0) =~= Seq::<EntryView>::empty());
            assert(stack_views(stack@) =~= seq![root_frame()]);
        }
        let mut idx: usize = 0;
        while idx < entries.len()
            invariant
                idx <= entries.len(),
                evs == entry_views(entries@),
                entries_wf(evs),
                stack@.len() >= 1,
                run(evs.subrange(0, idx as int)) == Some(stack_views(stack@)),
            decreases entries.len() - idx,
        {
            let ghost prefix = evs.subrange(0, idx as int);
            let ghost sv = stack_views(stack@);
            let e = &entries[idx];
            let ghost u = e.uri@;
            proof {
                assert(evs[idx as int] == entries@[idx as int]@);
                assert(marker_wf(evs[idx as int].uri));
                assert(evs.subrange(0, idx + 1).drop_last() =~= prefix);
                assert(evs.subrange(0, idx + 1).last() == evs[idx as int]);
                assert(sv.len() == stack@.len());
            }
            let segs = split_colons(e.uri.as_str());
            proof {
                assert(seg_views(segs@).len() == segs@.len());
                if segs@.len() >= 2 {
                    assert(seg_views(segs@)[1] == segs@[1]@);
                }
            }
            let start = segs.len() >= 2 && str_eq(segs[1].as_str(), "start-group");
            let end = !start && segs.len() >= 2 && str_eq(segs[1].as_str(), "end-group");
            if start {
                proof {
                    assert(is_start_group(u));
                    assert(seg_views(segs@)[3] == segs@[3]@);
                }
                let name = segs[3].clone();
                let fresh = Frame { name, children: Vec::new() };
                proof {
                    lemma_stack_views_push(stack@, fresh);
                    assert(FrameView { name: fresh.name@, children: Seq::empty() } == FrameView {
                        name: group_name(u),
                        children: Seq::empty(),
                    });
                }
                stack.push(fresh);
            } else if end {
                proof {
                    assert(is_end_group(u));
                    assert(!is_start_group(u));
                }
                if stack.len() > 1 {
                    let ghost sf = stack@;
                    let top = stack.pop().unwrap();
                    let mut parent = stack.pop().unwrap();
                    parent.children.push(Item::Group(top.name, top.children));
                    proof {
                        assert(parent.children@ == sf[sf.len() - 2].children@.push(
                            Item::Group(sf[sf.len() - 1].name, sf[sf.len() - 1].children),
                        ));
                    }
                    let ghost merged = parent;
                    stack.push(parent);
                    proof {
                        assert(stack@ =~= sf.subrange(0, sf.len() - 2).push(merged));
                        lemma_stack_views_attach(sf, merged);
                    }
                }
            } else {
                proof {
                    assert(!is_start_group(u));
                    assert(!is_end_group(u));
                    assert(is_playlist_ref(u));
                }
                match NamedId::from_uri(e.uri.as_str()) {
                    Ok(id) => {
                        let ghost sf = stack@;
                        let added = Item::Playlist(
                            RootPlaylistEntry { id, timestamp: e.timestamp },
                        );
                        let ghost gadded = added;
                        let mut top = stack.pop().unwrap();
                        top.children.push(added);
                        proof {
                            assert(top.children@ == sf[sf.len() - 1].children@.push(gadded));
                        }
                        let ghost merged = top;
                        stack.push(top);
                        proof {
                            assert(stack@ =~= sf.subrange(0, sf.len() - 1).push(merged));
                            lemma_stack_views_append(sf, merged, gadded);
                            assert(item_view(gadded) == ItemView::Playlist {
                                id: parsed_id(u),
                                timestamp: evs[idx as int].timestamp,
                            });
                        }
                    },
                    Err(err) => {
                        proof {
                            assert(step(sv, evs[idx as int]) is None);
                            assert(run(evs.subrange(0, idx + 1)) is None);
                            lemma_run_none_extends(evs, idx + 1);
                        }
                        return Err(err);
                    },
                }
            }
            proof {
                assert(run(evs.subrange(0, idx + 1)) == step(Some(sv)->Some_0, evs[idx as int]));
                assert(run(evs.subrange(0, idx + 1)) == Some(stack_views(stack@)));
            }
            idx += 1;
        }
        proof {
            assert(evs.subrange(0, evs.len() as int) =~= evs);
        }
        let ghost full = stack_views(stack@);
        while stack.len() > 1
            invariant
                stack@.len() >= 1,
                close_all(stack_views(stack@)) == close_all(full),
            decreases stack@.len(),
        {
            let ghost sf = stack@;
            let top = stack.pop().unwrap();
            let mut parent = stack.pop().unwrap();
            parent.children.push(Item::Group(top.name, top.children));
            proof {
                assert(parent.children@ == sf[sf.len() - 2].children@.push(
                    Item::Group(sf[sf.len() - 1].name, sf[sf.len() - 1].children),
                ));
            }
            let ghost merged = parent;
            stack.push(parent);
            proof {
                assert(stack@ =~= sf.subrange(0, sf.len() - 2).push(merged));
                lemma_stack_views_attach(sf, merged);
                assert(stack_views(sf).len() == sf.len());
                assert(close_all(stack_views(sf)) == close_all(pop_attach(stack_views(sf))));
            }
        }
        let root = stack.pop().unwrap();
        proof {
            assert(stack_views(stack@.push(root)).len() == 1);
            assert(close_all(stack_views(stack@.push(root))) == stack_views(stack@.push(root)));
            assert(stack_views(stack@.push(root))[0] == frame_view(root));
            assert(build_spec(evs) == Some(items_view(root.children@)));
        }
        Ok(RootPlaylist { items: root.children })
    }
}

} // verus!
