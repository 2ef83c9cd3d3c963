//! Unix paths as byte strings: their components, their lexical normal form, and how one
//! path lies below another.
use crate::order::{deep, key_at_most, same_bytes};
use vstd::prelude::*;

verus! {

/// The byte that separates the components of a path.
pub const SEPARATOR: u8 = 47;

/// The byte that the names `.` and `..` are made of.
pub const DOT: u8 = 46;

/// One component of a path.
pub enum ComponentView {
    RootDir,
    CurDir,
    ParentDir,
    Normal(Seq<u8>),
}

/// One component of a path.
#[derive(Debug)]
pub enum Component {
    /// The leading separator of an absolute path.
    RootDir,
    /// A leading `.` of a relative path.
    CurDir,
    /// A `..`.
    ParentDir,
    /// A name.
    Normal(Vec<u8>),
}

impl View for Component {
    type V = ComponentView;

    open spec fn view(&self) -> ComponentView {
        match self {
            Component::RootDir => ComponentView::RootDir,
            Component::CurDir => ComponentView::CurDir,
            Component::ParentDir => ComponentView::ParentDir,
            Component::Normal(name) => ComponentView::Normal(name@),
        }
    }
}

/// The views of a list of components.
pub open spec fn component_views(list: Seq<Component>) -> Seq<ComponentView> {
    list.map_values(|item: Component| item@)
}

/// The pieces between the separators of a path, empty ones included.
pub open spec fn segments(path: Seq<u8>) -> Seq<Seq<u8>>
    decreases path.len(),
{
    if path.len() == 0 {
        seq![Seq::<u8>::empty()]
    } else {
        let before = segments(path.drop_last());
        if path.last() == SEPARATOR {
            before.push(Seq::<u8>::empty())
        } else {
            before.drop_last().push(before.last().push(path.last()))
        }
    }
}

/// The piece is the name of the current directory.
pub open spec fn is_dot(segment: Seq<u8>) -> bool {
    segment == seq![DOT]
}

/// The piece is the name of the parent directory.
pub open spec fn is_dot_dot(segment: Seq<u8>) -> bool {
    segment == seq![DOT, DOT]
}

/// The components that the piece at a position stands for: none for an empty piece, and
/// none for a `.` that is not the first piece.
pub open spec fn segment_component(segment: Seq<u8>, first: bool) -> Seq<ComponentView> {
    if segment.len() == 0 {
        Seq::empty()
    } else if is_dot(segment) {
        if first {
            seq![ComponentView::CurDir]
        } else {
            Seq::empty()
        }
    } else if is_dot_dot(segment) {
        seq![ComponentView::ParentDir]
    } else {
        seq![ComponentView::Normal(segment)]
    }
}

/// The components that a list of pieces stands for.
pub open spec fn segment_components(list: Seq<Seq<u8>>) -> Seq<ComponentView>
    decreases list.len(),
{
    if list.len() == 0 {
        Seq::empty()
    } else {
        segment_components(list.drop_last()) + segment_component(list.last(), list.len() == 1)
    }
}

/// The path starts at the root directory.
pub open spec fn is_absolute_path(path: Seq<u8>) -> bool {
    path.len() > 0 && path[0] == SEPARATOR
}

/// The components of a path: repeated and trailing separators count for nothing, and `.`
/// counts only where a relative path starts with it.
pub open spec fn components_of(path: Seq<u8>) -> Seq<ComponentView> {
    if is_absolute_path(path) {
        seq![ComponentView::RootDir] + segment_components(segments(path))
    } else {
        segment_components(segments(path))
    }
}

/// A path of names only, below the root directory or not.
pub struct LexicalPathView {
    pub absolute: bool,
    pub parts: Seq<Seq<u8>>,
}

/// A path of names only, below the root directory or not.
#[derive(Debug)]
pub struct LexicalPath {
    pub absolute: bool,
    pub parts: Vec<Vec<u8>>,
}

impl View for LexicalPath {
    type V = LexicalPathView;

    open spec fn view(&self) -> LexicalPathView {
        LexicalPathView { absolute: self.absolute, parts: deep(self.parts@) }
    }
}

/// What is left of a path when one more component is followed: `..` takes the last name
/// away where there is one.
pub open spec fn followed(path: LexicalPathView, component: ComponentView) -> LexicalPathView {
    match component {
        ComponentView::RootDir => LexicalPathView { absolute: true, parts: Seq::empty() },
        ComponentView::CurDir => path,
        ComponentView::ParentDir => if path.parts.len() == 0 {
            path
        } else {
            LexicalPathView { absolute: path.absolute, parts: path.parts.drop_last() }
        },
        ComponentView::Normal(name) => LexicalPathView {
            absolute: path.absolute,
            parts: path.parts.push(name),
        },
    }
}

/// The path that a list of components leads to, from the empty path, by names alone.
pub open spec fn lexical(components: Seq<ComponentView>) -> LexicalPathView
    decreases components.len(),
{
    if components.len() == 0 {
        LexicalPathView { absolute: false, parts: Seq::empty() }
    } else {
        followed(lexical(components.drop_last()), components.last())
    }
}

/// Names with a separator between each two.
pub open spec fn joined_parts(parts: Seq<Seq<u8>>) -> Seq<u8>
    decreases parts.len(),
{
    if parts.len() == 0 {
        Seq::empty()
    } else if parts.len() == 1 {
        parts[0]
    } else {
        joined_parts(parts.drop_last()).push(SEPARATOR) + parts.last()
    }
}

/// The bytes of a path of names.
pub open spec fn rendered(path: LexicalPathView) -> Seq<u8> {
    if path.absolute {
        seq![SEPARATOR] + joined_parts(path.parts)
    } else {
        joined_parts(path.parts)
    }
}

/// The lexical normal form of a path: no `.`, no `..`, no repeated separator.
pub open spec fn normalized(path: Seq<u8>) -> Seq<u8> {
    rendered(lexical(components_of(path)))
}

/// The components of a path of names.
pub open spec fn lexical_components(path: LexicalPathView) -> Seq<ComponentView> {
    let names = path.parts.map_values(|name: Seq<u8>| ComponentView::Normal(name));
    if path.absolute {
        seq![ComponentView::RootDir] + names
    } else {
        names
    }
}

/// What is left of `path` below `base`, or `None` where `path` does not lie below it.
pub open spec fn below(path: LexicalPathView, base: Seq<ComponentView>) -> Option<LexicalPathView> {
    if !base.is_prefix_of(lexical_components(path)) {
        None
    } else if base.len() == 0 {
        Some(path)
    } else {
        let names = if path.absolute {
            base.len() - 1
        } else {
            base.len() as int
        };
        Some(LexicalPathView { absolute: false, parts: path.parts.skip(names) })
    }
}

/// `part` appended to `base`: an absolute part takes its place.
pub open spec fn joined(base: Seq<u8>, part: Seq<u8>) -> Seq<u8> {
    if is_absolute_path(part) {
        part
    } else if base.len() == 0 || base.last() == SEPARATOR {
        base + part
    } else {
        base.push(SEPARATOR) + part
    }
}

/// The sort key of a component: the kinds in their order, names by their bytes.
pub open spec fn component_key(component: ComponentView) -> Seq<u8> {
    match component {
        ComponentView::RootDir => seq![1u8],
        ComponentView::CurDir => seq![2u8],
        ComponentView::ParentDir => seq![3u8],
        ComponentView::Normal(name) => seq![4u8] + name,
    }
}

/// The sort key of a list of components.
pub open spec fn components_key(list: Seq<ComponentView>) -> Seq<Seq<u8>> {
    list.map_values(|item: ComponentView| component_key(item))
}

/// A name that a path can hold as one component.
pub open spec fn is_name(name: Seq<u8>) -> bool {
    &&& name.len() > 0
    &&& !name.contains(SEPARATOR)
    &&& !is_dot(name)
    &&& !is_dot_dot(name)
}

/// Every part of the path is a name.
pub open spec fn all_names(parts: Seq<Seq<u8>>) -> bool {
    forall|i: int| 0 <= i < parts.len() ==> is_name(#[trigger] parts[i])
}

proof fn lemma_segments_nonempty(path: Seq<u8>)
    ensures
        segments(path).len() > 0,
    decreases path.len(),
{
    if path.len() > 0 {
        lemma_segments_nonempty(path.drop_last());
    }
}

/// No piece of a path holds a separator.
proof fn lemma_segments_hold_no_separator(path: Seq<u8>)
    ensures
        forall|i: int|
            0 <= i < segments(path).len() ==> !(#[trigger] segments(path)[i]).contains(SEPARATOR),
    decreases path.len(),
{
    if path.len() > 0 {
        lemma_segments_hold_no_separator(path.drop_last());
        lemma_segments_nonempty(path.drop_last());
        let before = segments(path.drop_last());
        assert forall|i: int| 0 <= i < segments(path).len() implies !(
        #[trigger] segments(path)[i]).contains(SEPARATOR) by {
            if path.last() == SEPARATOR {
                if i < before.len() {
                    assert(segments(path)[i] == before[i]);
                }
            } else if i < before.len() - 1 {
                assert(segments(path)[i] == before[i]);
            } else {
                let grown = before.last().push(path.last());
                assert(segments(path)[i] == grown);
                assert(!before[before.len() - 1].contains(SEPARATOR));
                assert forall|j: int| 0 <= j < grown.len() implies grown[j] != SEPARATOR by {
                    if j < before.last().len() {
                        assert(before.last()[j] == grown[j]);
                        assert(before.last().contains(grown[j]));
                    }
                }
            }
        }
    }
}

/// A name behind a path only lengthens the path's last piece.
proof fn lemma_segments_append(path: Seq<u8>, name: Seq<u8>)
    requires
        !name.contains(SEPARATOR),
    ensures
        segments(path + name) == segments(path).drop_last().push(segments(path).last() + name),
    decreases name.len(),
{
    lemma_segments_nonempty(path);
    if name.len() == 0 {
        assert(path + name =~= path);
        assert(segments(path).last() + name =~= segments(path).last());
        assert(segments(path) =~= segments(path).drop_last().push(segments(path).last()));
    } else {
        let head = name.drop_last();
        assert forall|j: int| 0 <= j < head.len() implies head[j] != SEPARATOR by {
            assert(name.contains(name[j]));
        }
        lemma_segments_append(path, head);
        assert((path + name).drop_last() =~= path + head);
        assert(name.contains(name.last()));
        assert((path + name).last() == name.last());
        let before = segments(path + head);
        assert(before.drop_last() =~= segments(path).drop_last());
        assert(before.last().push(name.last()) =~= segments(path).last() + name);
    }
}

/// A separator and a name behind a path add the name as a piece.
proof fn lemma_segments_push_name(path: Seq<u8>, name: Seq<u8>)
    requires
        !name.contains(SEPARATOR),
    ensures
        segments(path.push(SEPARATOR) + name) == segments(path).push(name),
{
    lemma_segments_append(path.push(SEPARATOR), name);
    assert(path.push(SEPARATOR).drop_last() =~= path);
    let grown = segments(path).push(Seq::<u8>::empty());
    assert(segments(path.push(SEPARATOR)) == grown);
    assert(grown.drop_last() =~= segments(path));
    assert(grown.last() + name =~= name);
}

/// A leading separator adds an empty first piece.
proof fn lemma_segments_leading_separator(path: Seq<u8>)
    ensures
        segments(seq![SEPARATOR] + path) == seq![Seq::<u8>::empty()] + segments(path),
    decreases path.len(),
{
    let whole = seq![SEPARATOR] + path;
    if path.len() == 0 {
        assert(whole.drop_last() =~= Seq::<u8>::empty());
        assert(whole.last() == SEPARATOR);
        assert(segments(whole.drop_last()) == seq![Seq::<u8>::empty()]);
        assert(segments(whole) =~= seq![Seq::<u8>::empty()] + segments(path));
    } else {
        lemma_segments_leading_separator(path.drop_last());
        lemma_segments_nonempty(path.drop_last());
        assert(whole.drop_last() =~= seq![SEPARATOR] + path.drop_last());
        assert(whole.last() == path.last());
        assert(segments(whole) =~= seq![Seq::<u8>::empty()] + segments(path));
    }
}

/// Names with separators between them have just those names as pieces.
proof fn lemma_segments_of_joined(parts: Seq<Seq<u8>>)
    requires
        all_names(parts),
        parts.len() > 0,
    ensures
        segments(joined_parts(parts)) == parts,
    decreases parts.len(),
{
    let last = parts.last();
    assert(is_name(parts[parts.len() - 1]));
    if parts.len() == 1 {
        lemma_segments_append(Seq::<u8>::empty(), last);
        assert(Seq::<u8>::empty() + last =~= last);
        assert(segments(last) =~= parts);
    } else {
        let head = parts.drop_last();
        assert forall|i: int| 0 <= i < head.len() implies is_name(#[trigger] head[i]) by {
            assert(is_name(parts[i]));
        }
        lemma_segments_of_joined(head);
        lemma_segments_push_name(joined_parts(head), last);
        assert(segments(joined_parts(parts)) =~= parts);
    }
}

/// A single empty piece stands for no component.
proof fn lemma_empty_piece_stands_for_nothing()
    ensures
        segment_components(seq![Seq::<u8>::empty()]) == Seq::<ComponentView>::empty(),
{
    let one = seq![Seq::<u8>::empty()];
    assert(one.drop_last() =~= Seq::<Seq<u8>>::empty());
    assert(segment_components(one.drop_last()) =~= Seq::<ComponentView>::empty());
    assert(segment_components(one) =~= Seq::<ComponentView>::empty());
}

/// Pieces that are all names stand for those names; an empty first piece changes nothing.
proof fn lemma_components_of_names(lead: Seq<Seq<u8>>, parts: Seq<Seq<u8>>)
    requires
        all_names(parts),
        lead == Seq::<Seq<u8>>::empty() || lead == seq![Seq::<u8>::empty()],
    ensures
        segment_components(lead + parts) == parts.map_values(
            |name: Seq<u8>| ComponentView::Normal(name),
        ),
    decreases parts.len(),
{
    let names = parts.map_values(|name: Seq<u8>| ComponentView::Normal(name));
    if parts.len() == 0 {
        assert(lead + parts =~= lead);
        if lead.len() == 1 {
            lemma_empty_piece_stands_for_nothing();
            assert(segment_components(lead) =~= Seq::empty());
        }
        assert(segment_components(lead + parts) =~= names);
    } else {
        let head = parts.drop_last();
        assert forall|i: int| 0 <= i < head.len() implies is_name(#[trigger] head[i]) by {
            assert(is_name(parts[i]));
        }
        lemma_components_of_names(lead, head);
        assert((lead + parts).drop_last() =~= lead + head);
        assert((lead + parts).last() == parts.last());
        assert(is_name(parts[parts.len() - 1]));
        assert(segment_components(lead + parts) =~= names);
    }
}

/// The components of the bytes of a path of names are the path's own components.
pub proof fn rendering_keeps_components(path: LexicalPathView)
    requires
        all_names(path.parts),
    ensures
        components_of(rendered(path)) == lexical_components(path),
{
    let bytes = rendered(path);
    let text = joined_parts(path.parts);
    if path.parts.len() == 0 {
        assert(text =~= Seq::<u8>::empty());
        if path.absolute {
            lemma_segments_leading_separator(text);
            assert(segments(text) =~= seq![Seq::<u8>::empty()]);
            let two = seq![Seq::<u8>::empty()] + segments(text);
            assert(two.drop_last() =~= seq![Seq::<u8>::empty()]);
            lemma_empty_piece_stands_for_nothing();
            assert(segment_components(two) =~= Seq::empty());
        } else {
            assert(segments(text) =~= seq![Seq::<u8>::empty()]);
            lemma_empty_piece_stands_for_nothing();
        }
        assert(components_of(bytes) =~= lexical_components(path));
    } else {
        lemma_segments_of_joined(path.parts);
        if path.absolute {
            lemma_segments_leading_separator(text);
            lemma_components_of_names(seq![Seq::<u8>::empty()], path.parts);
        } else {
            lemma_components_of_names(Seq::<Seq<u8>>::empty(), path.parts);
            assert(Seq::<Seq<u8>>::empty() + path.parts =~= path.parts);
            lemma_joined_starts_with_a_name(path.parts);
            assert(is_name(path.parts[0]));
            assert(path.parts[0].contains(path.parts[0][0]));
        }
        assert(components_of(bytes) =~= lexical_components(path));
    }
}

proof fn lemma_joined_starts_with_a_name(parts: Seq<Seq<u8>>)
    requires
        all_names(parts),
        parts.len() > 0,
    ensures
        joined_parts(parts).len() > 0,
        joined_parts(parts)[0] == parts[0][0],
    decreases parts.len(),
{
    assert(is_name(parts[0]));
    if parts.len() > 1 {
        let head = parts.drop_last();
        assert forall|i: int| 0 <= i < head.len() implies is_name(#[trigger] head[i]) by {
            assert(is_name(parts[i]));
        }
        lemma_joined_starts_with_a_name(head);
        assert(head[0] == parts[0]);
    }
}

/// Every name among the components of a path is a name.
proof fn lemma_components_hold_names(list: Seq<Seq<u8>>)
    requires
        forall|i: int| 0 <= i < list.len() ==> !(#[trigger] list[i]).contains(SEPARATOR),
    ensures
        forall|i: int|
            0 <= i < segment_components(list).len() ==> (#[trigger] segment_components(
                list,
            )[i] matches ComponentView::Normal(name) ==> is_name(name)),
    decreases list.len(),
{
    if list.len() > 0 {
        let head = list.drop_last();
        assert forall|i: int| 0 <= i < head.len() implies !(#[trigger] head[i]).contains(
            SEPARATOR,
        ) by {
            assert(head[i] == list[i]);
        }
        lemma_components_hold_names(head);
        let before = segment_components(head);
        let last = segment_component(list.last(), list.len() == 1);
        assert(!list[list.len() - 1].contains(SEPARATOR));
        assert forall|i: int| 0 <= i < segment_components(list).len() implies (
        #[trigger] segment_components(list)[i] matches ComponentView::Normal(name) ==> is_name(
            name,
        )) by {
            if i < before.len() {
                assert(segment_components(list)[i] == before[i]);
            } else {
                assert(segment_components(list)[i] == last[i - before.len()]);
            }
        }
    }
}

/// Following components that hold only names leads to a path of names.
proof fn lemma_lexical_holds_names(components: Seq<ComponentView>)
    requires
        forall|i: int|
            0 <= i < components.len() ==> (#[trigger] components[i] matches ComponentView::Normal(
                name,
            ) ==> is_name(name)),
    ensures
        all_names(lexical(components).parts),
    decreases components.len(),
{
    if components.len() > 0 {
        let head = components.drop_last();
        assert forall|i: int| 0 <= i < head.len() implies (
        #[trigger] head[i] matches ComponentView::Normal(name) ==> is_name(name)) by {
            assert(head[i] == components[i]);
        }
        lemma_lexical_holds_names(head);
        assert(components[components.len() - 1] == components.last());
        let before = lexical(head).parts;
        let after = lexical(components).parts;
        assert forall|i: int| 0 <= i < after.len() implies is_name(#[trigger] after[i]) by {
            if i < before.len() {
                assert(after[i] == before[i]);
            }
        }
    }
}

/// The lexical path of every path holds only names.
pub proof fn lexical_paths_hold_names(path: Seq<u8>)
    ensures
        all_names(lexical(components_of(path)).parts),
{
    lemma_segments_hold_no_separator(path);
    lemma_components_hold_names(segments(path));
    let list = segment_components(segments(path));
    let all = components_of(path);
    assert forall|i: int| 0 <= i < all.len() implies (
    #[trigger] all[i] matches ComponentView::Normal(name) ==> is_name(name)) by {
        if is_absolute_path(path) {
            if i > 0 {
                assert(all[i] == list[i - 1]);
            }
        } else {
            assert(all[i] == list[i]);
        }
    }
    lemma_lexical_holds_names(all);
}

/// Following the components of a path of names leads back to that path.
proof fn lemma_lexical_of_names(path: LexicalPathView)
    ensures
        lexical(lexical_components(path)) == path,
    decreases path.parts.len(),
{
    let all = lexical_components(path);
    if path.parts.len() == 0 {
        if path.absolute {
            assert(all.drop_last() =~= Seq::<ComponentView>::empty());
            assert(all.last() == ComponentView::RootDir);
        }
        assert(lexical(all).parts =~= path.parts);
    } else {
        let shorter = LexicalPathView { absolute: path.absolute, parts: path.parts.drop_last() };
        lemma_lexical_of_names(shorter);
        assert(all.drop_last() =~= lexical_components(shorter));
        assert(all.last() == ComponentView::Normal(path.parts.last()));
        assert(lexical(all).parts =~= path.parts);
    }
}

/// The normal form of a path leads where the path leads.
pub proof fn normal_form_leads_to_the_same(path: Seq<u8>)
    ensures
        lexical(components_of(normalized(path))) == lexical(components_of(path)),
{
    let form = lexical(components_of(path));
    lexical_paths_hold_names(path);
    rendering_keeps_components(form);
    lemma_lexical_of_names(form);
}

/// A path in normal form is its own normal form.
pub proof fn normalizing_twice_changes_nothing(path: Seq<u8>)
    ensures
        normalized(normalized(path)) == normalized(path),
{
    normal_form_leads_to_the_same(path);
}

spec fn component_tag(component: ComponentView) -> u8 {
    match component {
        ComponentView::RootDir => 1,
        ComponentView::CurDir => 2,
        ComponentView::ParentDir => 3,
        ComponentView::Normal(name) => 4,
    }
}

/// Components are determined by their sort keys.
proof fn lemma_component_key_injective(a: ComponentView, b: ComponentView)
    requires
        component_key(a) == component_key(b),
    ensures
        a == b,
{
    assert(component_key(a)[0] == component_tag(a));
    assert(component_key(b)[0] == component_tag(b));
    match (a, b) {
        (ComponentView::Normal(x), ComponentView::Normal(y)) => {
            assert(component_key(a).skip(1) =~= x);
            assert(component_key(b).skip(1) =~= y);
        },
        _ => {},
    }
}

/// One list of components extends another just where its sort key does.
pub proof fn keys_extend_like_components(a: Seq<ComponentView>, b: Seq<ComponentView>)
    ensures
        components_key(a).is_prefix_of(components_key(b)) == a.is_prefix_of(b),
{
    let x = components_key(a);
    let y = components_key(b);
    if x.is_prefix_of(y) {
        assert forall|i: int| 0 <= i < a.len() implies a[i] == b.subrange(0, a.len() as int)[i] by {
            assert(x[i] == y.subrange(0, x.len() as int)[i]);
            lemma_component_key_injective(a[i], b[i]);
        }
        assert(a =~= b.subrange(0, a.len() as int));
    }
    if a.is_prefix_of(b) {
        assert forall|i: int| 0 <= i < x.len() implies x[i] == y.subrange(0, x.len() as int)[i] by {
            assert(a[i] == b.subrange(0, a.len() as int)[i]);
        }
        assert(x =~= y.subrange(0, x.len() as int));
    }
}

/// A copy of a byte string.
pub fn copy_bytes(bytes: &[u8]) -> (copy: Vec<u8>)
    ensures
        copy@ == bytes@,
{
    let mut copy: Vec<u8> = Vec::new();
    append_bytes(&mut copy, bytes);
    assert(copy@ =~= bytes@);
    copy
}

/// Appends a byte string to another one.
pub fn append_bytes(target: &mut Vec<u8>, bytes: &[u8])
    ensures
        final(target)@ == old(target)@ + bytes@,
{
    let ghost start = target@;
    target.extend_from_slice(bytes);
    assert(target@ =~= start + bytes@);
}

/// The pieces between the separators of a path.
fn split_segments(path: &[u8]) -> (list: Vec<Vec<u8>>)
    ensures
        deep(list@) == segments(path@),
{
    let mut done: Vec<Vec<u8>> = Vec::new();
    let mut current: Vec<u8> = Vec::new();
    let mut i: usize = 0;
    assert(path@.take(0) =~= Seq::<u8>::empty());
    assert(deep(done@).push(current@) =~= segments(path@.take(0)));
    while i < path.len()
        invariant
            i <= path@.len(),
            deep(done@).push(current@) == segments(path@.take(i as int)),
        decreases path@.len() - i,
    {
        let byte: u8 = path[i];
        let ghost before = deep(done@).push(current@);
        let ghost held = done@;
        let ghost piece = current@;
        proof {
            assert(path@.take(i + 1).drop_last() =~= path@.take(i as int));
            assert(path@.take(i + 1).last() == byte);
            assert(before.drop_last() =~= deep(done@));
        }
        if byte == SEPARATOR {
            done.push(current);
            current = Vec::new();
            assert(deep(done@) =~= deep(held).push(piece));
            assert(deep(done@).push(current@) =~= segments(path@.take(i + 1)));
        } else {
            current.push(byte);
            assert(deep(done@).push(current@) =~= segments(path@.take(i + 1)));
        }
        i += 1;
    }
    let ghost held = done@;
    let ghost piece = current@;
    done.push(current);
    assert(deep(done@) =~= deep(held).push(piece));
    assert(path@.take(path@.len() as int) =~= path@);
    done
}

/// The components of a path.
pub fn components(path: &[u8]) -> (list: Vec<Component>)
    ensures
        component_views(list@) == components_of(path@),
{
    let pieces = split_segments(path);
    let mut list: Vec<Component> = Vec::new();
    let absolute = path.len() > 0 && path[0] == SEPARATOR;
    if absolute {
        list.push(Component::RootDir);
    }
    let ghost lead = component_views(list@);
    let ghost all = deep(pieces@);
    assert(all.take(0) =~= Seq::<Seq<u8>>::empty());
    assert(component_views(list@) =~= lead + segment_components(all.take(0)));
    let mut i: usize = 0;
    while i < pieces.len()
        invariant
            i <= pieces@.len(),
            all == deep(pieces@),
            component_views(list@) == lead + segment_components(all.take(i as int)),
        decreases pieces@.len() - i,
    {
        let piece: &Vec<u8> = &pieces[i];
        let ghost before = list@;
        proof {
            assert(all.take(i + 1).drop_last() =~= all.take(i as int));
            assert(all.take(i + 1).last() == piece@);
        }
        if piece.len() == 0 {
            assert(component_views(list@) =~= lead + segment_components(all.take(i + 1)));
        } else if piece.len() == 1 && piece[0] == DOT {
            assert(piece@ =~= seq![DOT]);
            if i == 0 {
                list.push(Component::CurDir);
                assert(component_views(list@) =~= component_views(before).push(
                    ComponentView::CurDir,
                ));
            }
            assert(component_views(list@) =~= lead + segment_components(all.take(i + 1)));
        } else if piece.len() == 2 && piece[0] == DOT && piece[1] == DOT {
            assert(piece@ =~= seq![DOT, DOT]);
            list.push(Component::ParentDir);
            assert(component_views(list@) =~= component_views(before).push(ComponentView::ParentDir));
            assert(component_views(list@) =~= lead + segment_components(all.take(i + 1)));
        } else {
            assert(!is_dot(piece@) && !is_dot_dot(piece@));
            list.push(Component::Normal(copy_bytes(piece)));
            assert(list@.last()@ == ComponentView::Normal(piece@));
            assert(component_views(list@) =~= component_views(before).push(
                ComponentView::Normal(piece@),
            ));
            assert(component_views(list@) =~= lead + segment_components(all.take(i + 1)));
        }
        i += 1;
    }
    proof {
        assert(all.take(all.len() as int) =~= all);
        if absolute {
            assert(lead =~= seq![ComponentView::RootDir]);
        } else {
            assert(lead =~= Seq::<ComponentView>::empty());
        }
        assert(component_views(list@) =~= components_of(path@));
    }
    list
}

/// The path that a list of components leads to, continued from an earlier one.
pub fn follow(start: LexicalPath, list: &Vec<Component>) -> (path: LexicalPath)
    ensures
        forall|before: Seq<ComponentView>|
            lexical(before) == start@ ==> #[trigger] lexical(before + component_views(list@)) == path@,
{
    let mut path = start;
    let ghost all = component_views(list@);
    proof {
        assert forall|before: Seq<ComponentView>| lexical(before) == start@ implies #[trigger] lexical(
            before + all.take(0),
        ) == path@ by {
            assert(before + all.take(0) =~= before);
        }
    }
    let mut i: usize = 0;
    while i < list.len()
        invariant
            i <= list@.len(),
            all == component_views(list@),
            forall|before: Seq<ComponentView>|
                lexical(before) == start@ ==> #[trigger] lexical(before + all.take(i as int)) == path@,
        decreases list@.len() - i,
    {
        let ghost earlier = path@;
        match &list[i] {
            Component::RootDir => {
                path.absolute = true;
                path.parts = Vec::new();
            },
            Component::CurDir => {},
            Component::ParentDir => {
                let _dropped = path.parts.pop();
            },
            Component::Normal(name) => {
                path.parts.push(copy_bytes(name));
                assert(path.parts@.last()@ == name@);
            },
        }
        proof {
            let now = followed(earlier, all[i as int]);
            assert(all[i as int] == list@[i as int]@);
            assert(path@.parts =~= now.parts);
            assert(path@ == now);
            assert forall|before: Seq<ComponentView>| lexical(before) == start@ implies #[trigger] lexical(
                before + all.take(i + 1),
            ) == path@ by {
                let whole = before + all.take(i + 1);
                assert(whole.drop_last() =~= before + all.take(i as int));
                assert(whole.len() > 0 && whole.last() == all[i as int]);
                assert(lexical(before + all.take(i as int)) == earlier);
                assert(lexical(whole) == now);
            }
        }
        i += 1;
    }
    assert(all.take(all.len() as int) =~= all);
    path
}

/// The lexical path of a byte string.
pub fn lexical_path(path: &[u8]) -> (result: LexicalPath)
    ensures
        result@ == lexical(components_of(path@)),
{
    let list = components(path);
    let start = LexicalPath { absolute: false, parts: Vec::new() };
    proof {
        let none = Seq::<ComponentView>::empty();
        assert(start@.parts =~= lexical(none).parts);
        assert(none + component_views(list@) =~= component_views(list@));
    }
    follow(start, &list)
}

/// The bytes of a path of names.
pub fn render(path: &LexicalPath) -> (bytes: Vec<u8>)
    ensures
        bytes@ == rendered(path@),
{
    let mut bytes: Vec<u8> = Vec::new();
    if path.absolute {
        bytes.push(SEPARATOR);
    }
    let ghost lead = bytes@;
    let ghost all = deep(path.parts@);
    assert(all.take(0) =~= Seq::<Seq<u8>>::empty());
    assert(bytes@ =~= lead + joined_parts(all.take(0)));
    let mut i: usize = 0;
    while i < path.parts.len()
        invariant
            i <= path.parts@.len(),
            all == deep(path.parts@),
            bytes@ == lead + joined_parts(all.take(i as int)),
        decreases path.parts@.len() - i,
    {
        proof {
            assert(all.take(i + 1).drop_last() =~= all.take(i as int));
            assert(all.take(i + 1).last() == path.parts@[i as int]@);
        }
        if i > 0 {
            bytes.push(SEPARATOR);
        }
        append_bytes(&mut bytes, &path.parts[i]);
        assert(bytes@ =~= lead + joined_parts(all.take(i + 1)));
        i += 1;
    }
    proof {
        assert(all.take(all.len() as int) =~= all);
        assert(bytes@ =~= rendered(path@));
    }
    bytes
}

/// Whether two components are the same.
pub fn same_component(a: &Component, b: &Component) -> (result: bool)
    ensures
        result == (a@ == b@),
{
    match (a, b) {
        (Component::RootDir, Component::RootDir) => true,
        (Component::CurDir, Component::CurDir) => true,
        (Component::ParentDir, Component::ParentDir) => true,
        (Component::Normal(x), Component::Normal(y)) => same_bytes(x, y),
        _ => false,
    }
}

/// Whether one list of components starts with another one.
pub fn starts_with(list: &Vec<Component>, prefix: &Vec<Component>) -> (result: bool)
    ensures
        result == component_views(prefix@).is_prefix_of(component_views(list@)),
{
    let ghost x = component_views(prefix@);
    let ghost y = component_views(list@);
    if prefix.len() > list.len() {
        return false;
    }
    let mut i: usize = 0;
    while i < prefix.len()
        invariant
            i <= prefix@.len() <= list@.len(),
            x == component_views(prefix@),
            y == component_views(list@),
            forall|j: int| 0 <= j < i ==> x[j] == y[j],
        decreases prefix@.len() - i,
    {
        if !same_component(&prefix[i], &list[i]) {
            assert(x[i as int] != y.subrange(0, x.len() as int)[i as int]);
            return false;
        }
        i += 1;
    }
    assert(x =~= y.subrange(0, x.len() as int));
    true
}

/// The components of a path of names.
pub fn components_of_lexical(path: &LexicalPath) -> (list: Vec<Component>)
    ensures
        component_views(list@) == lexical_components(path@),
{
    let mut list: Vec<Component> = Vec::new();
    if path.absolute {
        list.push(Component::RootDir);
    }
    let ghost lead = component_views(list@);
    let ghost names = path@.parts.map_values(|name: Seq<u8>| ComponentView::Normal(name));
    assert(component_views(list@) =~= lead + names.take(0));
    let mut i: usize = 0;
    while i < path.parts.len()
        invariant
            i <= path.parts@.len(),
            names == path@.parts.map_values(|name: Seq<u8>| ComponentView::Normal(name)),
            component_views(list@) == lead + names.take(i as int),
        decreases path.parts@.len() - i,
    {
        let ghost before = list@;
        list.push(Component::Normal(copy_bytes(&path.parts[i])));
        assert(list@.last()@ == names[i as int]);
        assert(component_views(list@) =~= component_views(before).push(names[i as int]));
        assert(component_views(list@) =~= lead + names.take(i + 1));
        i += 1;
    }
    assert(component_views(list@) =~= lexical_components(path@));
    list
}

/// What is left of a path below a base path.
pub fn strip_base(path: &LexicalPath, base: &Vec<Component>) -> (rest: Option<LexicalPath>)
    ensures
        match rest {
            Some(found) => below(path@, component_views(base@)) == Some(found@),
            None => below(path@, component_views(base@)) is None,
        },
{
    let full = components_of_lexical(path);
    if !starts_with(&full, base) {
        return None;
    }
    let absolute = path.absolute && base.len() == 0;
    let mut skipped: usize = base.len();
    if path.absolute && base.len() > 0 {
        skipped = skipped - 1;
    }
    let mut parts: Vec<Vec<u8>> = Vec::new();
    let mut i: usize = skipped;
    let ghost all = path@.parts;
    assert(component_views(full@).len() == full@.len());
    assert(skipped <= path.parts@.len());
    assert(deep(parts@) =~= all.subrange(skipped as int, i as int));
    while i < path.parts.len()
        invariant
            skipped <= i <= path.parts@.len(),
            all == path@.parts,
            deep(parts@) == all.subrange(skipped as int, i as int),
        decreases path.parts@.len() - i,
    {
        let ghost before = parts@;
        parts.push(copy_bytes(&path.parts[i]));
        assert(parts@.last()@ == all[i as int]);
        assert(deep(parts@) =~= deep(before).push(all[i as int]));
        assert(deep(parts@) =~= all.subrange(skipped as int, i + 1));
        i += 1;
    }
    let found = LexicalPath { absolute, parts };
    proof {
        assert(found@.parts =~= all.skip(skipped as int));
        if base.len() == 0 {
            assert(found@.parts =~= all);
        }
    }
    Some(found)
}

/// `part` appended to `base`.
pub fn join(base: &[u8], part: &[u8]) -> (path: Vec<u8>)
    ensures
        path@ == joined(base@, part@),
{
    if part.len() > 0 && part[0] == SEPARATOR {
        return copy_bytes(part);
    }
    let mut path = copy_bytes(base);
    if base.len() > 0 && base[base.len() - 1] != SEPARATOR {
        path.push(SEPARATOR);
    }
    append_bytes(&mut path, part);
    path
}

/// Whether a path starts at the root directory.
pub fn is_absolute(path: &[u8]) -> (result: bool)
    ensures
        result == is_absolute_path(path@),
{
    path.len() > 0 && path[0] == SEPARATOR
}

/// The sort key of a list of components.
pub fn sort_key(list: &Vec<Component>) -> (key: Vec<Vec<u8>>)
    ensures
        deep(key@) == components_key(component_views(list@)),
{
    let mut key: Vec<Vec<u8>> = Vec::new();
    let ghost all = component_views(list@);
    assert(deep(key@) =~= components_key(all.take(0)));
    let mut i: usize = 0;
    while i < list.len()
        invariant
            i <= list@.len(),
            all == component_views(list@),
            deep(key@) == components_key(all.take(i as int)),
        decreases list@.len() - i,
    {
        let mut entry: Vec<u8> = Vec::new();
        match &list[i] {
            Component::RootDir => entry.push(1),
            Component::CurDir => entry.push(2),
            Component::ParentDir => entry.push(3),
            Component::Normal(name) => {
                entry.push(4);
                append_bytes(&mut entry, name);
            },
        }
        assert(entry@ =~= component_key(all[i as int]));
        let ghost before = key@;
        key.push(entry);
        assert(key@.last()@ == component_key(all[i as int]));
        assert(deep(key@) =~= deep(before).push(component_key(all[i as int])));
        assert(deep(key@) =~= components_key(all.take(i + 1)));
        i += 1;
    }
    assert(all.take(all.len() as int) =~= all);
    key
}

/// Whether a path comes no later than another one, component by component.
pub fn path_at_most(a: &[u8], b: &[u8]) -> (result: bool)
    ensures
        result == crate::order::key_le(
            components_key(components_of(a@)),
            components_key(components_of(b@)),
        ),
{
    key_at_most(&sort_key(&components(a)), &sort_key(&components(b)))
}

/// The shortest part from the start of a path, at least of a length, that has the given
/// components; the whole path where no part has them.
pub open spec fn shortest_with(path: Seq<u8>, list: Seq<ComponentView>, length: nat) -> Seq<u8>
    decreases path.len() - length,
{
    if length >= path.len() || components_of(path.take(length as int)) == list {
        path.take(length as int)
    } else {
        shortest_with(path, list, length + 1)
    }
}

/// A path up to the end of its last component: without the separators and dots behind it.
pub open spec fn body_of(path: Seq<u8>) -> Seq<u8> {
    shortest_with(path, components_of(path), 0)
}

/// The directory that a path lies in: its bytes up to the end of its last component but one.
/// The root directory and the empty path lie in none.
pub open spec fn parent_of(path: Seq<u8>) -> Option<Seq<u8>> {
    let list = components_of(path);
    if list.len() == 0 || list.last() is RootDir {
        None
    } else {
        Some(shortest_with(path, list.drop_last(), 0))
    }
}

/// The name that a path ends with, where it ends with one.
pub open spec fn file_name_of(path: Seq<u8>) -> Option<Seq<u8>> {
    let list = components_of(path);
    if list.len() == 0 {
        None
    } else {
        match list.last() {
            ComponentView::Normal(name) => Some(name),
            _ => None,
        }
    }
}

/// The bytes that a component takes up.
spec fn component_size(component: ComponentView) -> nat {
    match component {
        ComponentView::RootDir => 1,
        ComponentView::CurDir => 1,
        ComponentView::ParentDir => 2,
        ComponentView::Normal(name) => name.len(),
    }
}

/// The bytes that a list of components takes up, separators aside.
spec fn components_size(list: Seq<ComponentView>) -> nat
    decreases list.len(),
{
    if list.len() == 0 {
        0
    } else {
        components_size(list.drop_last()) + component_size(list.last())
    }
}

/// The part of a path up to a length is the shortest with the given components.
spec fn is_shortest(path: Seq<u8>, length: int, list: Seq<ComponentView>) -> bool {
    &&& 0 <= length <= path.len()
    &&& components_of(path.take(length)) == list
    &&& forall|m: int| 0 <= m < length ==> components_of(#[trigger] path.take(m)) != list
}

proof fn lemma_shortest(path: Seq<u8>, length: int, list: Seq<ComponentView>, from: nat)
    requires
        is_shortest(path, length, list),
        from <= length,
    ensures
        shortest_with(path, list, from) == path.take(length),
    decreases length - from,
{
    if from < length {
        assert(components_of(path.take(from as int)) != list);
        lemma_shortest(path, length, list, from + 1);
    }
}

/// What one more byte makes of the components of a path: nothing, a further component, or a
/// larger last one.
enum Growth {
    Same,
    Further,
    Larger,
}

/// What the byte at a position makes of the components of the path before it, whose last
/// piece begins at `start`.
spec fn growth(path: Seq<u8>, start: int, at: int) -> Growth {
    let piece = path.subrange(start, at);
    if path[at] == SEPARATOR {
        if at == 0 {
            Growth::Further
        } else {
            Growth::Same
        }
    } else if piece.len() == 0 {
        if path[at] == DOT && start > 0 {
            Growth::Same
        } else {
            Growth::Further
        }
    } else if is_dot(piece) && start > 0 {
        Growth::Further
    } else {
        Growth::Larger
    }
}

/// The last piece of a path begins at `start`, and it is the first one exactly where that is
/// the start of the path.
spec fn last_piece_begins(path: Seq<u8>, start: int) -> bool {
    &&& 0 <= start <= path.len()
    &&& segments(path).len() > 0
    &&& segments(path).last() == path.skip(start)
    &&& segments(path).len() == 1 <==> start == 0
    &&& start > 0 ==> path[start - 1] == SEPARATOR
}

proof fn lemma_growth(path: Seq<u8>, start: int, at: int)
    requires
        0 <= at < path.len(),
        last_piece_begins(path.take(at), start),
    ensures
        ({
            let before = components_of(path.take(at));
            let after = components_of(path.take(at + 1));
            match growth(path, start, at) {
                Growth::Same => after == before,
                Growth::Further => {
                    &&& after.len() == before.len() + 1
                    &&& after.drop_last() == before
                    &&& 0 < component_size(after.last()) <= at + 1
                },
                Growth::Larger => {
                    &&& before.len() > 0
                    &&& after.len() == before.len()
                    &&& after.drop_last() == before.drop_last()
                    &&& component_size(before.last()) < component_size(after.last()) <= at + 1
                },
            }
        }),
        last_piece_begins(
            path.take(at + 1),
            if path[at] == SEPARATOR {
                at + 1
            } else {
                start
            },
        ),
{
    let short = path.take(at);
    let long = path.take(at + 1);
    let pieces = segments(short);
    let piece = path.subrange(start, at);
    let byte = path[at];
    assert(long.drop_last() =~= short);
    assert(long.last() == byte);
    assert(short.skip(start) =~= piece);
    if byte == SEPARATOR {
        assert(long.skip(at + 1) =~= Seq::<u8>::empty());
        let grown = pieces.push(Seq::<u8>::empty());
        assert(grown.drop_last() =~= pieces);
        assert(segment_components(grown) =~= segment_components(pieces));
        if at == 0 {
            assert(short =~= Seq::<u8>::empty());
            assert(pieces.drop_last() =~= Seq::<Seq<u8>>::empty());
            assert(components_of(short) =~= Seq::<ComponentView>::empty());
            assert(components_of(long) =~= seq![ComponentView::RootDir]);
            assert(components_of(long).drop_last() =~= components_of(short));
        } else {
            assert(short[0] == long[0]);
        }
    } else {
        let grown = pieces.drop_last().push(piece.push(byte));
        assert(segments(long) == grown);
        assert(long.skip(start) =~= piece.push(byte));
        assert(grown.drop_last() =~= pieces.drop_last());
        let first = pieces.len() == 1;
        let lead = if at > 0 && path[0] == SEPARATOR {
            seq![ComponentView::RootDir]
        } else {
            Seq::empty()
        } + segment_components(pieces.drop_last());
        let old_part = segment_component(piece, first);
        let new_part = segment_component(piece.push(byte), first);
        assert(components_of(short) =~= lead + old_part);
        assert(components_of(long) =~= lead + new_part);
        if piece.len() == 0 {
            assert(piece.push(byte) =~= seq![byte]);
            assert(old_part =~= Seq::<ComponentView>::empty());
            if byte == DOT {
                assert(is_dot(piece.push(byte)));
            } else {
                assert(piece.push(byte)[0] == byte);
            }
        } else {
            assert(piece.push(byte).len() > 1);
            assert(piece.push(byte) != seq![DOT]);
            assert(new_part.len() == 1);
            if is_dot_dot(piece) {
                assert(piece.push(byte).len() == 3);
            }
        }
        if growth(path, start, at) is Further {
            assert(old_part =~= Seq::<ComponentView>::empty());
            assert((lead + new_part).drop_last() =~= lead);
            assert(lead + old_part =~= lead);
        } else if growth(path, start, at) is Larger {
            assert(old_part.len() == 1);
            assert((lead + new_part).drop_last() =~= lead);
            assert((lead + old_part).drop_last() =~= lead);
        }
    }
}

/// How long the parts of a path are that end with its last component but one and with its
/// last component.
fn last_ends(path: &[u8]) -> (ends: (usize, usize))
    ensures
        is_shortest(path@, ends.1 as int, components_of(path@)),
        components_of(path@).len() > 0 ==> {
            &&& is_shortest(path@, ends.0 as int, components_of(path@).drop_last())
            &&& component_size(components_of(path@).last()) <= ends.1
        },
{
    let mut start: usize = 0;
    let mut before_last: usize = 0;
    let mut last: usize = 0;
    let mut at: usize = 0;
    proof {
        let none = path@.take(0);
        assert(none =~= Seq::<u8>::empty());
        lemma_empty_piece_stands_for_nothing();
        assert(components_of(none) =~= Seq::<ComponentView>::empty());
        assert(none.skip(0) =~= Seq::<u8>::empty());
    }
    while at < path.len()
        invariant
            at <= path@.len(),
            last_piece_begins(path@.take(at as int), start as int),
            last <= at,
            is_shortest(path@, last as int, components_of(path@.take(at as int))),
            components_of(path@.take(at as int)).len() > 0 ==> {
                &&& is_shortest(
                    path@,
                    before_last as int,
                    components_of(path@.take(at as int)).drop_last(),
                )
                &&& component_size(components_of(path@.take(at as int)).last()) <= last
            },
            forall|m: int|
                0 <= m <= at ==> components_size(components_of(#[trigger] path@.take(m)))
                    <= components_size(components_of(path@.take(at as int))),
        decreases path@.len() - at,
    {
        let ghost earlier = components_of(path@.take(at as int));
        let ghost later = components_of(path@.take(at + 1));
        proof {
            lemma_growth(path@, start as int, at as int);
            assert(path@.take(at as int).skip(start as int) =~= path@.subrange(
                start as int,
                at as int,
            ));
        }
        let byte = path[at];
        let length: usize = at - start;
        let further = if byte == SEPARATOR {
            at == 0
        } else if length == 0 {
            !(byte == DOT && start > 0)
        } else {
            length == 1 && path[start] == DOT && start > 0
        };
        let larger = byte != SEPARATOR && length > 0 && !further;
        proof {
            let piece = path@.subrange(start as int, at as int);
            if length == 1 {
                assert(piece[0] == path@[start as int]);
                if path@[start as int] == DOT {
                    assert(piece =~= seq![DOT]);
                }
            }
            assert(further == (growth(path@, start as int, at as int) is Further));
            assert(larger == (growth(path@, start as int, at as int) is Larger));
            if further || larger {
                assert(components_size(later) > components_size(earlier));
                assert forall|m: int| 0 <= m < at + 1 implies components_of(
                    #[trigger] path@.take(m),
                ) != later by {
                    assert(components_size(components_of(path@.take(m))) <= components_size(
                        earlier,
                    ));
                }
            }
        }
        if further {
            before_last = last;
        }
        if further || larger {
            last = at + 1;
        }
        at += 1;
        if byte == SEPARATOR {
            start = at;
        }
    }
    assert(path@.take(path@.len() as int) =~= path@);
    (before_last, last)
}

/// A path up to the end of its last component.
pub fn body(path: &[u8]) -> (result: Vec<u8>)
    ensures
        result@ == body_of(path@),
        file_name_of(path@) matches Some(name) ==> name.len() <= result@.len(),
{
    let (_, end) = last_ends(path);
    proof {
        lemma_shortest(path@, end as int, components_of(path@), 0);
    }
    let part = vstd::slice::slice_subrange(path, 0, end);
    assert(part@ =~= path@.take(end as int));
    copy_bytes(part)
}

/// The directory that a path lies in.
pub fn parent(path: &[u8]) -> (result: Option<Vec<u8>>)
    ensures
        match result {
            Some(found) => {
                &&& parent_of(path@) == Some(found@)
                &&& found@.is_prefix_of(path@)
                &&& components_of(found@) == components_of(path@).drop_last()
                &&& forall|m: int|
                    0 <= m < found@.len() ==> components_of(#[trigger] path@.take(m))
                        != components_of(found@)
            },
            None => parent_of(path@) is None,
        },
{
    let list = components(path);
    let ghost all = component_views(list@);
    if list.len() == 0 {
        return None;
    }
    assert(all.last() == list@.last()@);
    if let Component::RootDir = &list[list.len() - 1] {
        return None;
    }
    let (end, _) = last_ends(path);
    proof {
        lemma_shortest(path@, end as int, all.drop_last(), 0);
    }
    let part = vstd::slice::slice_subrange(path, 0, end);
    assert(part@ =~= path@.take(end as int));
    Some(copy_bytes(part))
}

/// The name that a path ends with.
pub fn file_name(path: &[u8]) -> (result: Option<Vec<u8>>)
    ensures
        match result {
            Some(found) => file_name_of(path@) == Some(found@),
            None => file_name_of(path@) is None,
        },
{
    let list = components(path);
    let ghost all = component_views(list@);
    if list.len() == 0 {
        return None;
    }
    assert(all.last() == list@.last()@);
    match &list[list.len() - 1] {
        Component::Normal(name) => Some(copy_bytes(name)),
        _ => None,
    }
}

/// The pieces of a path make it up again, with a separator between each two, and hold none
/// themselves.
pub proof fn the_pieces_make_up_the_path(path: Seq<u8>)
    ensures
        segments(path).len() > 0,
        joined_parts(segments(path)) == path,
        forall|i: int, j: int|
            0 <= i < segments(path).len() && 0 <= j < segments(path)[i].len()
                ==> #[trigger] segments(path)[i][j] != 47,
    decreases path.len(),
{
    lemma_segments_nonempty(path);
    lemma_segments_hold_no_separator(path);
    assert forall|i: int, j: int|
        0 <= i < segments(path).len() && 0 <= j < segments(path)[i].len() implies #[trigger] segments(
        path,
    )[i][j] != 47 by {
        assert(segments(path)[i].contains(segments(path)[i][j]));
    }
    if path.len() > 0 {
        let head = path.drop_last();
        let before = segments(head);
        the_pieces_make_up_the_path(head);
        if path.last() == SEPARATOR {
            let all = before.push(Seq::<u8>::empty());
            assert(all.drop_last() =~= before);
            assert(joined_parts(all) =~= path);
        } else {
            let grown = before.last().push(path.last());
            let all = before.drop_last().push(grown);
            assert(all.drop_last() =~= before.drop_last());
            if all.len() == 1 {
                assert(all[0] == grown);
                assert(before.last() == before[0]);
                assert(before[0] == head);
                assert(grown =~= path);
            } else {
                assert(joined_parts(before) == joined_parts(before.drop_last()).push(SEPARATOR)
                    + before.last());
                assert(joined_parts(all) == joined_parts(before.drop_last()).push(SEPARATOR)
                    + grown);
                assert(joined_parts(all) =~= head.push(path.last()));
                assert(head.push(path.last()) =~= path);
            }
        }
    } else {
        assert(joined_parts(segments(path)) =~= path);
    }
}

/// The bytes can be one component of a path.
pub open spec fn can_be_a_name(name: Seq<u8>) -> bool {
    &&& name.len() > 0
    &&& forall|i: int| 0 <= i < name.len() ==> #[trigger] name[i] != 47
    &&& !(name.len() == 1 && name[0] == 46)
    &&& !(name.len() == 2 && name[0] == 46 && name[1] == 46)
}

proof fn lemma_can_be_a_name(name: Seq<u8>)
    ensures
        is_name(name) == can_be_a_name(name),
{
    if is_name(name) {
        assert forall|i: int| 0 <= i < name.len() implies #[trigger] name[i] != 47 by {
            assert(name.contains(name[i]));
        }
        if name.len() == 1 && name[0] == 46 {
            assert(name =~= seq![DOT]);
        }
        if name.len() == 2 && name[0] == 46 && name[1] == 46 {
            assert(name =~= seq![DOT, DOT]);
        }
    }
}

/// A name is one component of a path; what is empty, holds a separator, or is `.` or `..` is
/// none.
pub proof fn a_name_is_one_component(name: Seq<u8>)
    ensures
        is_name(name) <==> can_be_a_name(name),
{
    lemma_can_be_a_name(name);
}

/// How short paths are read: nothing has no component, a separator is the root directory, a dot
/// is the current directory, two dots the parent, and a name itself.
pub proof fn short_paths_are_read(name: Seq<u8>)
    ensures
        components_of(Seq::empty()) == Seq::<ComponentView>::empty(),
        components_of(seq![47u8]) == seq![ComponentView::RootDir],
        components_of(seq![46u8]) == seq![ComponentView::CurDir],
        components_of(seq![46u8, 46u8]) == seq![ComponentView::ParentDir],
        can_be_a_name(name) ==> components_of(name) == seq![ComponentView::Normal(name)],
{
    lemma_empty_piece_stands_for_nothing();
    let nothing = Seq::<u8>::empty();
    let none = Seq::<ComponentView>::empty();
    let root = seq![47u8];
    assert(segments(nothing) == seq![nothing]);
    assert(root.drop_last() =~= nothing);
    assert(segments(root) =~= seq![nothing, nothing]);
    assert(segments(root).drop_last() =~= seq![nothing]);
    assert(components_of(root) =~= seq![ComponentView::RootDir]);
    lemma_single_piece(seq![46u8]);
    lemma_single_piece(seq![46u8, 46u8]);
    assert(seq![46u8] =~= seq![DOT]);
    assert(seq![46u8, 46u8] =~= seq![DOT, DOT]);
    assert(seq![46u8, 46u8].len() != seq![DOT].len());
    if can_be_a_name(name) {
        lemma_can_be_a_name(name);
        lemma_single_piece(name);
    }
}

proof fn lemma_single_piece(piece: Seq<u8>)
    requires
        piece.len() > 0,
        forall|i: int| 0 <= i < piece.len() ==> #[trigger] piece[i] != 47,
    ensures
        components_of(piece) == segment_component(piece, true),
{
    let nothing = Seq::<u8>::empty();
    lemma_segments_append(nothing, piece);
    assert(nothing + piece =~= piece);
    let pieces = segments(piece);
    assert(segments(nothing) == seq![nothing]);
    assert(pieces =~= seq![piece]);
    assert(pieces.drop_last() =~= Seq::<Seq<u8>>::empty());
    assert(segment_components(pieces.drop_last()) =~= Seq::<ComponentView>::empty());
    assert(segment_components(pieces) =~= segment_component(piece, true));
}

/// How a path goes on: a separator alone or with a dot behind it adds nothing, with two dots it
/// adds a step up, and with a name it adds that name.
pub proof fn a_path_goes_on_by_components(path: Seq<u8>, name: Seq<u8>)
    requires
        path.len() > 0,
    ensures
        components_of(path.push(47u8)) == components_of(path),
        components_of(path.push(47u8) + seq![46u8]) == components_of(path),
        components_of(path.push(47u8) + seq![46u8, 46u8]) == components_of(path).push(
            ComponentView::ParentDir,
        ),
        can_be_a_name(name) ==> components_of(path.push(47u8) + name) == components_of(path).push(
            ComponentView::Normal(name),
        ),
{
    lemma_further_piece(path, Seq::empty());
    assert(path.push(47u8) + Seq::<u8>::empty() =~= path.push(47u8));
    lemma_further_piece(path, seq![46u8]);
    lemma_further_piece(path, seq![46u8, 46u8]);
    assert(seq![46u8] =~= seq![DOT]);
    assert(seq![46u8, 46u8] =~= seq![DOT, DOT]);
    assert(seq![46u8, 46u8].len() != seq![DOT].len());
    let c = components_of(path);
    assert(c + Seq::<ComponentView>::empty() =~= c);
    assert(c + seq![ComponentView::ParentDir] =~= c.push(ComponentView::ParentDir));
    if can_be_a_name(name) {
        lemma_can_be_a_name(name);
        lemma_further_piece(path, name);
        assert(c + seq![ComponentView::Normal(name)] =~= c.push(ComponentView::Normal(name)));
    }
}

proof fn lemma_further_piece(path: Seq<u8>, piece: Seq<u8>)
    requires
        path.len() > 0,
        forall|i: int| 0 <= i < piece.len() ==> #[trigger] piece[i] != 47,
    ensures
        components_of(path.push(47u8) + piece) == components_of(path) + segment_component(
            piece,
            false,
        ),
{
    let cut = path.push(47u8);
    let whole = cut + piece;
    assert(cut.drop_last() =~= path);
    assert(segments(cut) == segments(path).push(Seq::<u8>::empty()));
    lemma_segments_append(cut, piece);
    lemma_segments_nonempty(path);
    assert(Seq::<u8>::empty() + piece =~= piece);
    assert(segments(whole) =~= segments(path).push(piece));
    assert(segments(whole).drop_last() =~= segments(path));
    assert(whole[0] == path[0]);
    assert(components_of(whole) =~= components_of(path) + segment_component(piece, false));
}

/// By names alone a path leads to where its names lead, one after the other: a step up takes the
/// last name away, at the top it leads nowhere further, a dot stays, and the root directory
/// begins anew.
pub proof fn names_lead_one_after_the_other(list: Seq<ComponentView>, name: Seq<u8>)
    ensures
        lexical(Seq::empty()) == (LexicalPathView { absolute: false, parts: Seq::empty() }),
        lexical(list.push(ComponentView::Normal(name))).parts == lexical(list).parts.push(name),
        lexical(list.push(ComponentView::Normal(name))).absolute == lexical(list).absolute,
        lexical(list.push(ComponentView::CurDir)) == lexical(list),
        lexical(list.push(ComponentView::RootDir)) == (LexicalPathView {
            absolute: true,
            parts: Seq::empty(),
        }),
        lexical(list.push(ComponentView::ParentDir)).absolute == lexical(list).absolute,
        lexical(list).parts.len() == 0 ==> lexical(list.push(ComponentView::ParentDir)) == lexical(
            list,
        ),
        lexical(list).parts.len() > 0 ==> lexical(list.push(ComponentView::ParentDir)).parts
            == lexical(list).parts.drop_last(),
{
    assert(list.push(ComponentView::Normal(name)).drop_last() =~= list);
    assert(list.push(ComponentView::CurDir).drop_last() =~= list);
    assert(list.push(ComponentView::RootDir).drop_last() =~= list);
    assert(list.push(ComponentView::ParentDir).drop_last() =~= list);
}

/// A path of names is written with a separator in front where it is absolute, and one between
/// each two names.
pub proof fn names_are_written_with_separators(absolute: bool, parts: Seq<Seq<u8>>, name: Seq<u8>)
    ensures
        rendered(LexicalPathView { absolute: false, parts: Seq::empty() }) == Seq::<u8>::empty(),
        rendered(LexicalPathView { absolute: true, parts: Seq::empty() }) == seq![47u8],
        rendered(LexicalPathView { absolute, parts: seq![name] }) == if absolute {
            seq![47u8] + name
        } else {
            name
        },
        parts.len() > 0 ==> rendered(LexicalPathView { absolute, parts: parts.push(name) })
            == rendered(LexicalPathView { absolute, parts }).push(47u8) + name,
{
    let more = parts.push(name);
    assert(more.drop_last() =~= parts);
    assert(seq![47u8] + Seq::<u8>::empty() =~= seq![47u8]);
    if parts.len() > 0 {
        assert(rendered(LexicalPathView { absolute, parts: more }) =~= rendered(
            LexicalPathView { absolute, parts },
        ).push(47u8) + name);
    }
}

/// What lies below a base is what is left behind the components of the base: nothing lies below
/// a base that it does not begin with.
pub proof fn what_is_below_a_base_follows_it(path: LexicalPathView, base: Seq<ComponentView>)
    ensures
        below(path, base) is Some <==> base.is_prefix_of(lexical_components(path)),
        below(path, base) is Some ==> lexical_components(path) =~= base + lexical_components(
            below(path, base)->0,
        ),
        lexical_components(path).len() == path.parts.len() + if path.absolute {
            1int
        } else {
            0
        },
        path.absolute ==> lexical_components(path)[0] == ComponentView::RootDir,
        forall|i: int|
            0 <= i < path.parts.len() ==> lexical_components(path)[i + if path.absolute {
                1int
            } else {
                0
            }] == ComponentView::Normal(#[trigger] path.parts[i]),
{
    let all = lexical_components(path);
    if base.is_prefix_of(all) {
        let rest = below(path, base)->0;
        assert forall|k: int| 0 <= k < base.len() implies base[k] == all[k] by {
            assert(base[k] == all.subrange(0, base.len() as int)[k]);
        }
        assert(all =~= base + lexical_components(rest));
    }
}

/// A part is put behind a base with one separator between them, unless the base is empty or
/// brings it; an absolute part stands for itself.
pub proof fn parts_are_joined_with_one_separator(base: &[u8], part: &[u8], path: Vec<u8>)
    requires
        call_ensures(join, (base, part), path),
    ensures
        part@.len() > 0 && part@[0] == 47 ==> path@ == part@,
        !(part@.len() > 0 && part@[0] == 47) && (base@.len() == 0 || base@.last() == 47) ==> path@
            == base@ + part@,
        !(part@.len() > 0 && part@[0] == 47) && base@.len() > 0 && base@.last() != 47 ==> path@
            == base@ + seq![47u8] + part@,
{
    if base@.len() > 0 && base@.last() != 47 {
        assert(base@.push(47u8) + part@ =~= base@ + seq![47u8] + part@);
    }
}

/// The directory of a path is the shortest beginning of its bytes that has all its components
/// but the last; the root directory and the empty path have none.
pub proof fn a_directory_is_the_beginning_of_its_path(path: &[u8], result: Option<Vec<u8>>)
    requires
        call_ensures(parent, (path,), result),
    ensures
        result is None <==> components_of(path@).len() == 0 || components_of(path@).last()
            is RootDir,
        result is Some ==> {
            let found = result->0@;
            &&& found.len() <= path@.len()
            &&& found == path@.take(found.len() as int)
            &&& components_of(found) == components_of(path@).drop_last()
            &&& forall|m: int|
                0 <= m < found.len() ==> components_of(#[trigger] path@.take(m)) != components_of(
                    found,
                )
        },
        result is Some ==> parent_of(path@) == Some(result->0@),
{
    if result is Some {
        let found = result->0@;
        assert(found =~= path@.take(found.len() as int)) by {
            assert forall|k: int| 0 <= k < found.len() implies found[k] == path@[k] by {
                assert(found[k] == path@.subrange(0, found.len() as int)[k]);
            }
        }
    }
}

/// The name of a path is its last component, where that is a name.
pub proof fn a_path_ends_with_its_name(path: &[u8], result: Option<Vec<u8>>, name: Seq<u8>)
    requires
        call_ensures(file_name, (path,), result),
    ensures
        result is Some && result->0@ == name <==> components_of(path@).len() > 0 && components_of(
            path@,
        ).last() == ComponentView::Normal(name),
{
}

/// A path begins at the root directory exactly where its first byte is a separator.
pub proof fn an_absolute_path_begins_with_a_separator(path: &[u8], result: bool)
    requires
        call_ensures(is_absolute, (path,), result),
    ensures
        result <==> path@.len() > 0 && path@[0] == 47,
{
}

} // verus!
