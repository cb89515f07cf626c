//! Unix paths as text.
//!
//! A path is read as its components: repeated separators, a trailing separator
//! and `.` components do not count, except a `.` at the start of a relative
//! path. Two paths are the same when their components are.
use vstd::prelude::*;
use crate::text;

verus! {

/// One component of a path.
#[derive(Debug)]
pub enum Component {
    /// The leading `/` of an absolute path.
    Root,
    /// A `.` at the start of a relative path.
    Current,
    /// A `..`.
    Parent,
    /// A file or directory name.
    Normal(String),
}

/// The model of a [`Component`].
pub enum ComponentView {
    Root,
    Current,
    Parent,
    Normal(Seq<char>),
}

impl View for Component {
    type V = ComponentView;

    open spec fn view(&self) -> ComponentView {
        match self {
            Component::Root => ComponentView::Root,
            Component::Current => ComponentView::Current,
            Component::Parent => ComponentView::Parent,
            Component::Normal(name) => ComponentView::Normal(name@),
        }
    }
}

/// The views of `components`.
pub open spec fn component_views(components: Seq<Component>) -> Seq<ComponentView> {
    Seq::new(components.len(), |i: int| components[i]@)
}

/// The component that the text between two separators stands for, if any.
pub open spec fn segment_component(segment: Seq<char>) -> Seq<ComponentView> {
    if segment.len() == 0 || segment == seq!['.'] {
        Seq::empty()
    } else if segment == seq!['.', '.'] {
        seq![ComponentView::Parent]
    } else {
        seq![ComponentView::Normal(segment)]
    }
}

/// The components of the segments of `path`, which `/` separates.
pub open spec fn segment_components(path: Seq<char>) -> Seq<ComponentView>
    decreases path.len(),
{
    let end = text::find(path, '/');
    if end >= path.len() {
        segment_component(path)
    } else {
        proof {
            text::lemma_find(path, '/');
        }
        segment_component(path.take(end)) + segment_components(path.skip(end + 1))
    }
}

/// The component that comes before those of the segments: the root of an
/// absolute path, or the `.` that a relative path starts with.
pub open spec fn leading_component(path: Seq<char>) -> Seq<ComponentView> {
    if path.len() > 0 && path[0] == '/' {
        seq![ComponentView::Root]
    } else if path.take(text::find(path, '/')) == seq!['.'] {
        seq![ComponentView::Current]
    } else {
        Seq::empty()
    }
}

/// The components of `path`.
pub open spec fn components(path: Seq<char>) -> Seq<ComponentView> {
    leading_component(path) + segment_components(path)
}

/// Whether two paths are the same.
pub open spec fn same_path(a: Seq<char>, b: Seq<char>) -> bool {
    components(a) == components(b)
}

/// `name` inside `base`, as `Path::join` has it: an absolute `name` stands for
/// itself, and a separator is put between the two where `base` does not end
/// with one.
pub open spec fn joined(base: Seq<char>, name: Seq<char>) -> Seq<char> {
    if name.len() > 0 && name[0] == '/' {
        name
    } else if base.len() == 0 || base.last() == '/' {
        base + name
    } else {
        base + seq!['/'] + name
    }
}

/// The last component of `path`, where that is a name.
pub open spec fn file_name(path: Seq<char>) -> Option<Seq<char>> {
    let all = components(path);
    if all.len() == 0 {
        None
    } else {
        match all.last() {
            ComponentView::Normal(name) => Some(name),
            _ => None,
        }
    }
}

/// The position of the last `.` in `name`, or -1.
pub open spec fn last_dot(name: Seq<char>) -> int
    decreases name.len(),
{
    if name.len() == 0 {
        -1
    } else if name.last() == '.' {
        name.len() - 1
    } else {
        last_dot(name.drop_last())
    }
}

/// The file name without its extension.
pub open spec fn file_stem(path: Seq<char>) -> Option<Seq<char>> {
    match file_name(path) {
        Some(name) => Some(
            if last_dot(name) > 0 {
                name.take(last_dot(name))
            } else {
                name
            },
        ),
        None => None,
    }
}

/// What follows the last `.` of the file name, where that is not its first
/// character.
pub open spec fn extension(path: Seq<char>) -> Option<Seq<char>> {
    match file_name(path) {
        Some(name) => if last_dot(name) > 0 {
            Some(name.skip(last_dot(name) + 1))
        } else {
            None
        },
        None => None,
    }
}

/// A text that can be one whole component and no more.
pub open spec fn is_plain_name(name: Seq<char>) -> bool {
    &&& name.len() > 0
    &&& !name.contains('/')
    &&& name != seq!['.']
    &&& name != seq!['.', '.']
}

/// The segments of two texts around a separator are those of the one, then
/// those of the other.
pub proof fn lemma_segments_concat(a: Seq<char>, b: Seq<char>)
    ensures
        segment_components(a + seq!['/'] + b) == segment_components(a) + segment_components(b),
    decreases a.len(),
{
    let whole = a + seq!['/'] + b;
    let end = text::find(a, '/');
    text::lemma_find(a, '/');
    assert forall|i: int| 0 <= i < end implies whole[i] != '/' by {
        assert(whole[i] == a[i]);
    }
    text::lemma_find_unique(whole, '/', end);
    assert(whole.take(end) =~= a.take(end));
    if end >= a.len() {
        assert(a.take(end) =~= a);
        assert(whole.skip(end + 1) =~= b);
    } else {
        let rest = a.skip(end + 1);
        assert(whole.skip(end + 1) =~= rest + seq!['/'] + b);
        lemma_segments_concat(rest, b);
        assert(segment_components(whole) =~= segment_component(a.take(end)) + (
        segment_components(rest) + segment_components(b)));
    }
}

/// A plain name has itself as its only component.
pub proof fn lemma_plain_name_components(name: Seq<char>)
    requires
        is_plain_name(name),
    ensures
        components(name) == seq![ComponentView::Normal(name)],
        segment_components(name) == seq![ComponentView::Normal(name)],
{
    text::lemma_find(name, '/');
    assert(name.take(name.len() as int) =~= name);
    assert(name[0] != '/') by {
        if name[0] == '/' {
            assert(name.contains(name[0]));
        }
    }
    assert(leading_component(name) =~= Seq::empty());
    assert(components(name) =~= segment_components(name));
}

/// A path joined with a plain name has the components of the path, then the
/// name.
pub proof fn lemma_joined_components(base: Seq<char>, name: Seq<char>)
    requires
        is_plain_name(name),
    ensures
        components(joined(base, name)) == components(base).push(ComponentView::Normal(name)),
{
    lemma_plain_name_components(name);
    assert(name[0] != '/') by {
        if name[0] == '/' {
            assert(name.contains(name[0]));
        }
    }
    let whole = joined(base, name);
    if base.len() == 0 {
        assert(whole =~= name);
        text::lemma_find(base, '/');
        assert(base.take(0) =~= base);
        assert(components(base) =~= Seq::empty());
        assert(components(whole) =~= components(base).push(ComponentView::Normal(name)));
    } else {
        let head = if base.last() == '/' {
            base.drop_last()
        } else {
            base
        };
        assert(whole =~= head + seq!['/'] + name);
        lemma_segments_concat(head, name);
        if base.last() == '/' {
            let nothing = Seq::<char>::empty();
            assert(base =~= head + seq!['/'] + nothing);
            lemma_segments_concat(head, nothing);
            assert(segment_components(nothing) =~= Seq::empty());
        }
        assert(segment_components(whole) =~= segment_components(base).push(
            ComponentView::Normal(name),
        ));
        assert(leading_component(whole) =~= leading_component(base)) by {
            assert(whole[0] == base[0]);
            text::lemma_find(base, '/');
            let end = text::find(base, '/');
            assert forall|i: int| 0 <= i < end implies whole[i] != '/' by {
                assert(whole[i] == base[i]);
            }
            assert(end < whole.len() ==> whole[end] == '/');
            text::lemma_find_unique(whole, '/', end);
            assert(whole.take(end) =~= base.take(end));
        }
        assert(components(whole) =~= components(base).push(ComponentView::Normal(name)));
    }
}

/// Joining a path with a plain name and taking the file name gives the name
/// back.
pub proof fn law_file_name_of_joined(base: Seq<char>, name: Seq<char>)
    requires
        is_plain_name(name),
    ensures
        file_name(joined(base, name)) == Some(name),
{
    lemma_joined_components(base, name);
}

/// Two plain names in the same directory are the same path only if they are the
/// same name.
pub proof fn law_joined_injective(base: Seq<char>, first: Seq<char>, second: Seq<char>)
    requires
        is_plain_name(first),
        is_plain_name(second),
        same_path(joined(base, first), joined(base, second)),
    ensures
        first == second,
{
    lemma_joined_components(base, first);
    lemma_joined_components(base, second);
    assert(components(joined(base, first)).last() == ComponentView::Normal(first));
    assert(components(joined(base, second)).last() == ComponentView::Normal(second));
}

/// `last_dot` gives the last position that holds a `.`.
pub proof fn lemma_last_dot(name: Seq<char>)
    ensures
        -1 <= last_dot(name) < name.len(),
        last_dot(name) >= 0 ==> name[last_dot(name)] == '.',
        forall|i: int| last_dot(name) < i < name.len() ==> name[i] != '.',
    decreases name.len(),
{
    if name.len() > 0 && name.last() != '.' {
        let rest = name.drop_last();
        lemma_last_dot(rest);
        assert forall|i: int| last_dot(name) < i < name.len() implies name[i] != '.' by {
            if i < rest.len() {
                assert(rest[i] == name[i]);
            }
        }
    }
}

/// The position of the last `.` is the only one that holds a `.` with none
/// after it.
pub proof fn lemma_last_dot_unique(name: Seq<char>, at: int)
    requires
        -1 <= at < name.len(),
        at >= 0 ==> name[at] == '.',
        forall|i: int| at < i < name.len() ==> name[i] != '.',
    ensures
        last_dot(name) == at,
{
    lemma_last_dot(name);
    if last_dot(name) > at {
        assert(name[last_dot(name)] != '.');
    } else if last_dot(name) < at {
        assert(name[at] != '.');
    }
}

/// The place of a kind of component in the order of components.
pub open spec fn component_rank(component: ComponentView) -> int {
    match component {
        ComponentView::Root => 0,
        ComponentView::Current => 1,
        ComponentView::Parent => 2,
        ComponentView::Normal(_) => 3,
    }
}

/// Whether a component comes before another: by kind, then by name.
pub open spec fn component_lt(a: ComponentView, b: ComponentView) -> bool {
    match (a, b) {
        (ComponentView::Normal(x), ComponentView::Normal(y)) => text::text_lt(x, y),
        _ => component_rank(a) < component_rank(b),
    }
}

/// Lexicographic order of lists of components.
pub open spec fn components_lt(a: Seq<ComponentView>, b: Seq<ComponentView>) -> bool
    decreases a.len(),
{
    if b.len() == 0 {
        false
    } else if a.len() == 0 {
        true
    } else if a[0] == b[0] {
        components_lt(a.drop_first(), b.drop_first())
    } else {
        component_lt(a[0], b[0])
    }
}

/// Whether a path comes before another in the order of paths.
pub open spec fn path_lt(a: Seq<char>, b: Seq<char>) -> bool {
    components_lt(components(a), components(b))
}

/// No list of components comes before itself.
pub proof fn lemma_components_lt_irreflexive(a: Seq<ComponentView>)
    ensures
        !components_lt(a, a),
    decreases a.len(),
{
    if a.len() > 0 {
        lemma_components_lt_irreflexive(a.drop_first());
    }
}

/// The order of lists of components is transitive.
pub proof fn lemma_components_lt_transitive(
    a: Seq<ComponentView>,
    b: Seq<ComponentView>,
    c: Seq<ComponentView>,
)
    requires
        components_lt(a, b),
        components_lt(b, c),
    ensures
        components_lt(a, c),
    decreases a.len(),
{
    if a.len() > 0 {
        if a[0] == b[0] && b[0] == c[0] {
            lemma_components_lt_transitive(a.drop_first(), b.drop_first(), c.drop_first());
        } else if a[0] != b[0] && b[0] != c[0] {
            match (a[0], b[0], c[0]) {
                (
                    ComponentView::Normal(x),
                    ComponentView::Normal(y),
                    ComponentView::Normal(z),
                ) => {
                    text::lemma_text_lt_transitive(x, y, z);
                    text::lemma_text_lt_irreflexive(x);
                },
                _ => {},
            }
        }
    }
}

/// Two lists of components are equal, or one comes before the other.
pub proof fn lemma_components_lt_total(a: Seq<ComponentView>, b: Seq<ComponentView>)
    ensures
        a == b || components_lt(a, b) || components_lt(b, a),
    decreases a.len(),
{
    if a.len() == 0 && b.len() == 0 {
        assert(a =~= b);
    } else if a.len() > 0 && b.len() > 0 {
        if a[0] == b[0] {
            lemma_components_lt_total(a.drop_first(), b.drop_first());
            if a.drop_first() == b.drop_first() {
                assert(a =~= seq![a[0]] + a.drop_first());
                assert(b =~= seq![b[0]] + b.drop_first());
            }
        } else {
            match (a[0], b[0]) {
                (ComponentView::Normal(x), ComponentView::Normal(y)) => {
                    text::lemma_text_lt_total(x, y);
                },
                _ => {},
            }
        }
    }
}

/// The paths come in strictly increasing order.
pub open spec fn paths_sorted(all: Seq<Seq<char>>) -> bool {
    forall|i: int, j: int|
        0 <= i < j < all.len() ==> path_lt(#[trigger] all[i], #[trigger] all[j])
}

/// Whether one of the paths is the same as `path`.
pub open spec fn has_path(all: Seq<Seq<char>>, path: Seq<char>) -> bool {
    exists|i: int| 0 <= i < all.len() && same_path(#[trigger] all[i], path)
}

/// The number of paths at the front that come before `path`.
pub open spec fn path_rank(all: Seq<Seq<char>>, path: Seq<char>) -> int
    decreases all.len(),
{
    if all.len() > 0 && path_lt(all[0], path) {
        1 + path_rank(all.drop_first(), path)
    } else {
        0
    }
}

/// The paths with `path` at its place in the order. It takes the place of a path
/// that is the same.
pub open spec fn with_path(all: Seq<Seq<char>>, path: Seq<char>) -> Seq<Seq<char>> {
    let at = path_rank(all, path);
    if at < all.len() && same_path(all[at], path) {
        all.update(at, path)
    } else {
        all.insert(at, path)
    }
}

/// The paths of a list, in order, each once.
pub open spec fn path_set(list: Seq<Seq<char>>) -> Seq<Seq<char>>
    decreases list.len(),
{
    if list.len() == 0 {
        Seq::empty()
    } else {
        with_path(path_set(list.drop_last()), list.last())
    }
}

/// `path_rank` splits sorted paths into those before `path` and the rest.
pub proof fn lemma_path_rank(all: Seq<Seq<char>>, path: Seq<char>)
    requires
        paths_sorted(all),
    ensures
        0 <= path_rank(all, path) <= all.len(),
        forall|i: int| 0 <= i < path_rank(all, path) ==> path_lt(#[trigger] all[i], path),
        forall|i: int| path_rank(all, path) <= i < all.len() ==> !path_lt(#[trigger] all[i], path),
    decreases all.len(),
{
    if all.len() > 0 {
        let rest = all.drop_first();
        assert(forall|i: int| 0 <= i < rest.len() ==> rest[i] == all[i + 1]);
        assert(paths_sorted(rest));
        if path_lt(all[0], path) {
            lemma_path_rank(rest, path);
            assert forall|i: int| 0 <= i < path_rank(all, path) implies path_lt(
                #[trigger] all[i],
                path,
            ) by {
                if i > 0 {
                    assert(all[i] == rest[i - 1]);
                }
            }
            assert forall|i: int| path_rank(all, path) <= i < all.len() implies !path_lt(
                #[trigger] all[i],
                path,
            ) by {
                assert(all[i] == rest[i - 1]);
            }
        } else {
            assert forall|i: int| 0 <= i < all.len() implies !path_lt(#[trigger] all[i], path) by {
                if i > 0 && path_lt(all[i], path) {
                    lemma_components_lt_transitive(
                        components(all[0]),
                        components(all[i]),
                        components(path),
                    );
                }
            }
        }
    }
}

/// A split of sorted paths at `path` is the one that `path_rank` gives.
pub proof fn lemma_path_rank_unique(all: Seq<Seq<char>>, path: Seq<char>, at: int)
    requires
        paths_sorted(all),
        0 <= at <= all.len(),
        at > 0 ==> path_lt(all[at - 1], path),
        at < all.len() ==> !path_lt(all[at], path),
    ensures
        path_rank(all, path) == at,
{
    lemma_path_rank(all, path);
}

/// Adding a path keeps the order, and adds that path and no other.
pub proof fn lemma_with_path(all: Seq<Seq<char>>, path: Seq<char>, other: Seq<char>)
    requires
        paths_sorted(all),
    ensures
        paths_sorted(with_path(all, path)),
        has_path(with_path(all, path), other) <==> has_path(all, other) || same_path(path, other),
        forall|i: int|
            0 <= i < with_path(all, path).len() ==> (#[trigger] with_path(all, path)[i]) == path
                || all.contains(with_path(all, path)[i]),
{
    let at = path_rank(all, path);
    let after = with_path(all, path);
    lemma_path_rank(all, path);
    let replaced = at < all.len() && same_path(all[at], path);
    if replaced {
        assert(forall|i: int| 0 <= i < all.len() && i != at ==> after[i] == all[i]);
        assert(after[at] == path);
        assert forall|i: int, j: int| 0 <= i < j < after.len() implies path_lt(
            #[trigger] after[i],
            #[trigger] after[j],
        ) by {
            assert(path_lt(all[i], all[j]));
        }
    } else {
        assert(forall|i: int| 0 <= i < at ==> after[i] == all[i]);
        assert(after[at] == path);
        assert(forall|i: int| at < i < after.len() ==> after[i] == all[i - 1]);
        assert forall|i: int, j: int| 0 <= i < j < after.len() implies path_lt(
            #[trigger] after[i],
            #[trigger] after[j],
        ) by {
            if i == at {
                lemma_components_lt_total(components(all[j - 1]), components(path));
                if same_path(all[j - 1], path) && j - 1 != at {
                    assert(path_lt(all[at], all[j - 1]));
                }
            } else if i < at && j > at {
                assert(path_lt(all[i], all[j - 1]));
            } else if i > at {
                assert(path_lt(all[i - 1], all[j - 1]));
            }
        }
    }
    if has_path(all, other) {
        let i = choose|i: int| 0 <= i < all.len() && same_path(#[trigger] all[i], other);
        if replaced || i < at {
            assert(same_path(after[i], other));
        } else {
            assert(same_path(after[i + 1], other));
        }
    }
    if same_path(path, other) {
        assert(same_path(after[at], other));
    }
    if has_path(after, other) {
        let i = choose|i: int| 0 <= i < after.len() && same_path(#[trigger] after[i], other);
        if i != at {
            if replaced || i < at {
                assert(same_path(all[i], other));
            } else {
                assert(same_path(all[i - 1], other));
            }
        }
    }
    assert forall|i: int| 0 <= i < after.len() implies (#[trigger] after[i]) == path
        || all.contains(after[i]) by {
        if i != at {
            if replaced || i < at {
                assert(all.contains(all[i]));
            } else {
                assert(all.contains(all[i - 1]));
            }
        }
    }
}

/// The set of the paths of a list is sorted, holds each of them once, and
/// nothing else.
pub proof fn law_path_set(list: Seq<Seq<char>>, path: Seq<char>)
    ensures
        paths_sorted(path_set(list)),
        has_path(path_set(list), path) <==> has_path(list, path),
        forall|i: int| 0 <= i < path_set(list).len() ==> list.contains(#[trigger] path_set(list)[i]),
    decreases list.len(),
{
    if list.len() > 0 {
        let rest = list.drop_last();
        let before = path_set(rest);
        law_path_set(rest, path);
        lemma_with_path(before, list.last(), path);
        if has_path(list, path) {
            let i = choose|i: int| 0 <= i < list.len() && same_path(#[trigger] list[i], path);
            if i < rest.len() {
                assert(same_path(rest[i], path));
            }
        }
        if has_path(rest, path) {
            let i = choose|i: int| 0 <= i < rest.len() && same_path(#[trigger] rest[i], path);
            assert(same_path(list[i], path));
        }
        assert(same_path(list[list.len() - 1], list.last()));
        let after = path_set(list);
        assert forall|i: int| 0 <= i < after.len() implies list.contains(#[trigger] after[i]) by {
            if after[i] == list.last() {
                assert(list.contains(list[list.len() - 1]));
            } else {
                let j = choose|j: int| 0 <= j < before.len() && before[j] == after[i];
                assert(rest.contains(before[j]));
                let k = choose|k: int| 0 <= k < rest.len() && rest[k] == after[i];
                assert(list[k] == after[i]);
            }
        }
    } else if has_path(path_set(list), path) {
        assert(false);
    }
}

/// The component of the segment of `path` from `from` to `to`.
fn segment_at(path: &str, from: usize, to: usize) -> (found: Option<Component>)
    requires
        from <= to <= path@.len(),
    ensures
        segment_component(path@.subrange(from as int, to as int)) == match found {
            Some(component) => seq![component@],
            None => Seq::empty(),
        },
{
    let segment = path.substring_char(from, to);
    proof {
        reveal_strlit(".");
        reveal_strlit("..");
        assert("."@ =~= seq!['.']);
        assert(".."@ =~= seq!['.', '.']);
    }
    if from == to || text::text_eq(segment, ".") {
        None
    } else if text::text_eq(segment, "..") {
        Some(Component::Parent)
    } else {
        Some(Component::Normal(segment.to_owned()))
    }
}

/// The components of `path`.
pub fn components_of(path: &str) -> (found: Vec<Component>)
    ensures
        component_views(found@) == components(path@),
{
    let chars = text::chars_of(path);
    let mut found: Vec<Component> = Vec::new();
    let first = text::find_from(&chars, 0, '/');
    proof {
        assert(path@.skip(0) =~= path@);
        reveal_strlit(".");
        assert("."@ =~= seq!['.']);
        text::lemma_find(path@, '/');
        assert(path@.subrange(0, first as int) =~= path@.take(first as int));
    }
    if chars.len() > 0 && chars[0] == '/' {
        found.push(Component::Root);
    } else if text::text_eq(path.substring_char(0, first), ".") {
        found.push(Component::Current);
    }
    assert(component_views(found@) =~= leading_component(path@));
    let mut at: usize = 0;
    loop
        invariant
            chars@ == path@,
            at <= chars@.len(),
            components(path@) == component_views(found@) + segment_components(
                path@.skip(at as int),
            ),
        decreases chars@.len() - at,
    {
        let end = text::find_from(&chars, at, '/');
        let ghost rest = path@.skip(at as int);
        let ghost before = component_views(found@);
        let segment = segment_at(path, at, end);
        proof {
            text::lemma_find(rest, '/');
            assert(path@.subrange(at as int, end as int) =~= rest.take(end - at));
            if end >= chars@.len() {
                assert(rest.take(end - at) =~= rest);
            }
        }
        let ghost piece = segment_component(path@.subrange(at as int, end as int));
        match segment {
            Some(component) => {
                found.push(component);
            },
            None => {},
        }
        assert(component_views(found@) =~= before + piece);
        if end >= chars.len() {
            return found;
        }
        assert(rest.skip(end - at + 1) =~= path@.skip(end + 1));
        assert(before + (piece + segment_components(path@.skip(end + 1))) =~= before + piece
            + segment_components(path@.skip(end + 1)));
        at = end + 1;
    }
}

/// Whether two components are the same.
fn component_eq(a: &Component, b: &Component) -> (equal: bool)
    ensures
        equal == (a@ == b@),
{
    match (a, b) {
        (Component::Root, Component::Root) => true,
        (Component::Current, Component::Current) => true,
        (Component::Parent, Component::Parent) => true,
        (Component::Normal(x), Component::Normal(y)) => text::text_eq(x.as_str(), y.as_str()),
        _ => false,
    }
}

/// Whether two paths are the same.
pub fn path_eq(a: &str, b: &str) -> (equal: bool)
    ensures
        equal == same_path(a@, b@),
{
    let x = components_of(a);
    let y = components_of(b);
    if x.len() != y.len() {
        assert(component_views(x@).len() != component_views(y@).len());
        return false;
    }
    for i in 0..x.len()
        invariant
            x@.len() == y@.len(),
            component_views(x@) == components(a@),
            component_views(y@) == components(b@),
            forall|j: int| 0 <= j < i ==> component_views(x@)[j] == component_views(y@)[j],
    {
        if !component_eq(&x[i], &y[i]) {
            assert(component_views(x@)[i as int] != component_views(y@)[i as int]);
            return false;
        }
        assert(component_views(x@)[i as int] == component_views(y@)[i as int]);
    }
    assert(component_views(x@) =~= component_views(y@));
    true
}

/// The place of a kind of component in the order of components.
fn rank_of_component(component: &Component) -> (rank: u8)
    ensures
        rank == component_rank(component@),
{
    match component {
        Component::Root => 0,
        Component::Current => 1,
        Component::Parent => 2,
        Component::Normal(_) => 3,
    }
}

/// Whether a component comes before another.
fn component_less(a: &Component, b: &Component) -> (less: bool)
    ensures
        less == component_lt(a@, b@),
{
    match (a, b) {
        (Component::Normal(x), Component::Normal(y)) => text::text_less(x.as_str(), y.as_str()),
        _ => rank_of_component(a) < rank_of_component(b),
    }
}

/// Whether a path comes before another in the order of paths.
pub fn path_less(a: &str, b: &str) -> (less: bool)
    ensures
        less == path_lt(a@, b@),
{
    let x = components_of(a);
    let y = components_of(b);
    let ghost left = component_views(x@);
    let ghost right = component_views(y@);
    let mut i: usize = 0;
    assert(left.skip(0) =~= left);
    assert(right.skip(0) =~= right);
    while i < x.len() && i < y.len() && component_eq(&x[i], &y[i])
        invariant
            left == component_views(x@),
            right == component_views(y@),
            left == components(a@),
            right == components(b@),
            i <= x@.len(),
            i <= y@.len(),
            path_lt(a@, b@) == components_lt(left.skip(i as int), right.skip(i as int)),
        decreases x@.len() - i,
    {
        assert(left.skip(i as int).drop_first() =~= left.skip(i + 1));
        assert(right.skip(i as int).drop_first() =~= right.skip(i + 1));
        i += 1;
    }
    if i >= y.len() {
        false
    } else if i >= x.len() {
        true
    } else {
        component_less(&x[i], &y[i])
    }
}

/// Puts `path` at its place in a sorted list. It takes the place of a path that
/// is the same.
pub fn insert_path(all: Vec<String>, path: String) -> (list: Vec<String>)
    requires
        paths_sorted(text::texts(all@)),
    ensures
        text::texts(list@) == with_path(text::texts(all@), path@),
        paths_sorted(text::texts(list@)),
{
    let ghost before = text::texts(all@);
    let ghost view = path@;
    let mut list = all;
    let mut at: usize = 0;
    while at < list.len() && path_less(list[at].as_str(), path.as_str())
        invariant
            paths_sorted(before),
            before == text::texts(list@),
            view == path@,
            at <= list@.len(),
            at > 0 ==> path_lt(before[at - 1], view),
        decreases list@.len() - at,
    {
        at += 1;
    }
    proof {
        lemma_path_rank_unique(before, view, at as int);
        lemma_with_path(before, view, view);
    }
    if at < list.len() && path_eq(list[at].as_str(), path.as_str()) {
        list.set(at, path);
        assert(text::texts(list@) =~= before.update(at as int, view));
    } else {
        list.insert(at, path);
        assert(text::texts(list@) =~= before.insert(at as int, view));
    }
    list
}

/// `name` inside `base`.
pub fn join(base: &str, name: &str) -> (path: String)
    ensures
        path@ == joined(base@, name@),
{
    let from = text::chars_of(base);
    let to = text::chars_of(name);
    if to.len() > 0 && to[0] == '/' {
        return name.to_owned();
    }
    if from.len() == 0 || from[from.len() - 1] == '/' {
        return text::concat(base, name);
    }
    proof {
        reveal_strlit("/");
        assert("/"@ =~= seq!['/']);
    }
    text::concat(text::concat(base, "/").as_str(), name)
}

/// The last component of `path`, where that is a name.
pub fn file_name_of(path: &str) -> (name: Option<String>)
    ensures
        file_name(path@) == match name {
            Some(text) => Some(text@),
            None => None,
        },
{
    let all = components_of(path);
    if all.len() == 0 {
        return None;
    }
    assert(component_views(all@).last() == all@.last()@);
    match &all[all.len() - 1] {
        Component::Normal(name) => Some(name.clone()),
        _ => None,
    }
}

/// One more than the position of the last `.` in `name`, or 0.
fn after_last_dot(name: &str) -> (after: usize)
    ensures
        after == last_dot(name@) + 1,
{
    let chars = text::chars_of(name);
    let mut after: usize = chars.len();
    while after > 0 && chars[after - 1] != '.'
        invariant
            chars@ == name@,
            after <= chars@.len(),
            forall|i: int| after <= i < chars@.len() ==> chars@[i] != '.',
        decreases after,
    {
        after -= 1;
    }
    proof {
        lemma_last_dot_unique(name@, after - 1);
    }
    after
}

/// The file name of `path` without its extension.
pub fn file_stem_of(path: &str) -> (stem: Option<String>)
    ensures
        file_stem(path@) == match stem {
            Some(text) => Some(text@),
            None => None,
        },
{
    match file_name_of(path) {
        Some(name) => {
            let after = after_last_dot(name.as_str());
            proof {
                lemma_last_dot(name@);
            }
            if after > 1 {
                let stem = name.as_str().substring_char(0, after - 1);
                assert(stem@ =~= name@.take(last_dot(name@)));
                Some(stem.to_owned())
            } else {
                Some(name)
            }
        },
        None => None,
    }
}

/// The extension of the file name of `path`.
pub fn extension_of(path: &str) -> (found: Option<String>)
    ensures
        extension(path@) == match found {
            Some(text) => Some(text@),
            None => None,
        },
{
    match file_name_of(path) {
        Some(name) => {
            let after = after_last_dot(name.as_str());
            proof {
                lemma_last_dot(name@);
            }
            if after > 1 {
                let length: usize = text::chars_of(name.as_str()).len();
                let rest = name.as_str().substring_char(after, length);
                assert(rest@ =~= name@.skip(last_dot(name@) + 1));
                Some(rest.to_owned())
            } else {
                None
            }
        },
        None => None,
    }
}

/// What a path starts with is decided before its first separator.
pub proof fn lemma_leading_component(path: Seq<char>, rest: Seq<char>)
    requires
        path.len() > 0,
    ensures
        leading_component(path + seq!['/'] + rest) == leading_component(path),
{
    let whole = path + seq!['/'] + rest;
    assert(whole[0] == path[0]);
    text::lemma_find(path, '/');
    let end = text::find(path, '/');
    assert forall|i: int| 0 <= i < end implies whole[i] != '/' by {
        assert(whole[i] == path[i]);
    }
    assert(whole[end] == '/');
    text::lemma_find_unique(whole, '/', end);
    assert(whole.take(end) =~= path.take(end));
}

/// What stands behind a path adds its segments to the path's components. A
/// separator at the end, a second separator and a `.` behind one do not count, and
/// `..` is kept.
pub proof fn law_separators(path: Seq<char>, rest: Seq<char>)
    requires
        path.len() > 0,
    ensures
        components(path + seq!['/'] + rest) == components(path) + segment_components(rest),
        components(path + seq!['/']) == components(path),
        components(path + seq!['/', '/'] + rest) == components(path + seq!['/'] + rest),
        components(path + seq!['/', '.', '/'] + rest) == components(path + seq!['/'] + rest),
        components(path + seq!['/', '.', '.']) == components(path).push(ComponentView::Parent),
{
    let nothing = Seq::<char>::empty();
    let dot = seq!['.'];
    let up = seq!['.', '.'];
    text::lemma_find(nothing, '/');
    text::lemma_find(dot, '/');
    text::lemma_find(up, '/');
    assert(dot[0] == '.' && up[0] == '.' && up[1] == '.');
    assert(segment_components(nothing) =~= Seq::empty());
    assert(segment_components(dot) =~= Seq::empty());
    assert(segment_components(up) =~= seq![ComponentView::Parent]);
    lemma_segments_concat(path, rest);
    lemma_leading_component(path, rest);
    assert(components(path + seq!['/'] + rest) =~= components(path) + segment_components(rest));
    lemma_segments_concat(path, nothing);
    lemma_leading_component(path, nothing);
    assert(path + seq!['/'] + nothing =~= path + seq!['/']);
    assert(components(path + seq!['/']) =~= components(path));
    let twice = nothing + seq!['/'] + rest;
    lemma_segments_concat(nothing, rest);
    lemma_segments_concat(path, twice);
    lemma_leading_component(path, twice);
    assert(path + seq!['/', '/'] + rest =~= path + seq!['/'] + twice);
    assert(components(path + seq!['/', '/'] + rest) =~= components(path + seq!['/'] + rest));
    let dotted = dot + seq!['/'] + rest;
    lemma_segments_concat(dot, rest);
    lemma_segments_concat(path, dotted);
    lemma_leading_component(path, dotted);
    assert(path + seq!['/', '.', '/'] + rest =~= path + seq!['/'] + dotted);
    assert(components(path + seq!['/', '.', '/'] + rest) =~= components(
        path + seq!['/'] + rest,
    ));
    lemma_segments_concat(path, up);
    lemma_leading_component(path, up);
    assert(path + seq!['/', '.', '.'] =~= path + seq!['/'] + up);
    assert(components(path + seq!['/', '.', '.']) =~= components(path).push(
        ComponentView::Parent,
    ));
}

/// A path starts at the root exactly if it starts with a separator.
pub proof fn law_root(path: Seq<char>)
    ensures
        path.len() > 0 && path[0] == '/' <==> components(path).len() > 0 && components(path)[0]
            == ComponentView::Root,
    decreases path.len(),
{
    if !(path.len() > 0 && path[0] == '/') {
        lemma_no_root_in_segments(path);
        let all = components(path);
        if all.len() > 0 && leading_component(path).len() == 0 {
            assert(all[0] == segment_components(path)[0]);
        }
    }
}

/// No segment stands for the root.
pub proof fn lemma_no_root_in_segments(path: Seq<char>)
    ensures
        forall|i: int|
            0 <= i < segment_components(path).len() ==> (#[trigger] segment_components(path)[i])
                != ComponentView::Root,
    decreases path.len(),
{
    let end = text::find(path, '/');
    text::lemma_find(path, '/');
    if end < path.len() {
        lemma_no_root_in_segments(path.skip(end + 1));
    }
}

/// Joining keeps an absolute path as it is, and puts any other inside the
/// directory.
pub proof fn law_joined_paths(base: Seq<char>, name: Seq<char>)
    requires
        base.len() > 0,
    ensures
        name.len() > 0 && name[0] == '/' ==> joined(base, name) == name,
        !(name.len() > 0 && name[0] == '/') ==> components(joined(base, name)) == components(base)
            + segment_components(name),
{
    if !(name.len() > 0 && name[0] == '/') {
        let whole = joined(base, name);
        if base.last() != '/' {
            law_separators(base, name);
        } else if base.len() == 1 {
            let nothing = Seq::<char>::empty();
            assert(whole =~= nothing + seq!['/'] + name);
            assert(base =~= nothing + seq!['/'] + nothing);
            lemma_segments_concat(nothing, name);
            lemma_segments_concat(nothing, nothing);
            assert(segment_components(nothing) =~= Seq::empty());
            assert(components(whole) =~= components(base) + segment_components(name));
        } else {
            let head = base.drop_last();
            assert(whole =~= head + seq!['/'] + name);
            assert(base =~= head + seq!['/']);
            law_separators(head, name);
        }
    }
}

/// The file name is the stem, or the stem, a dot and the extension.
pub proof fn law_stem_and_extension(path: Seq<char>)
    ensures
        match file_name(path) {
            Some(name) => {
                &&& file_stem(path) matches Some(stem) && match extension(path) {
                    Some(ending) => name == stem + seq!['.'] + ending && !ending.contains('.')
                        && stem.len() > 0,
                    None => stem == name,
                }
                &&& extension(path) is None ==> forall|i: int|
                    0 < i < name.len() ==> name[i] != '.'
            },
            None => file_stem(path) is None && extension(path) is None,
        },
{
    if let Some(name) = file_name(path) {
        lemma_last_dot(name);
        let at = last_dot(name);
        if at > 0 {
            assert(name =~= name.take(at) + seq!['.'] + name.skip(at + 1));
            let ending = name.skip(at + 1);
            if ending.contains('.') {
                let k = choose|k: int| 0 <= k < ending.len() && ending[k] == '.';
                assert(name[at + 1 + k] == '.');
            }
        }
    }
}

/// Paths are ordered by their first differing component. The root comes before `.`,
/// that before `..`, and that before names, which are ordered as texts. A path comes
/// before every path that continues it.
pub proof fn law_first_component_decides(
    a: Seq<ComponentView>,
    b: Seq<ComponentView>,
    at: int,
)
    requires
        0 <= at <= a.len(),
        at <= b.len(),
        forall|i: int| 0 <= i < at ==> a[i] == b[i],
    ensures
        at < a.len() && at < b.len() && a[at] != b[at] ==> (components_lt(a, b) <==> {
            ||| a[at] is Root
            ||| a[at] is Current && !(b[at] is Root)
            ||| a[at] is Parent && b[at] is Normal
            ||| a[at] matches ComponentView::Normal(x) && (b[at] matches ComponentView::Normal(y)
                && text::text_lt(x, y))
        }),
        at == a.len() && at < b.len() ==> components_lt(a, b),
        at == b.len() ==> !components_lt(a, b),
    decreases at,
{
    if at > 0 {
        assert(a[0] == b[0]);
        law_first_component_decides(a.drop_first(), b.drop_first(), at - 1);
    }
}

/// Of paths of a list that are the same, the set holds the last one as it is
/// written.
pub proof fn law_last_path_is_kept(list: Seq<Seq<char>>, at: int)
    requires
        0 <= at < list.len(),
        forall|j: int| at < j < list.len() ==> !same_path(#[trigger] list[j], list[at]),
    ensures
        path_set(list).contains(list[at]),
    decreases list.len(),
{
    let rest = list.drop_last();
    let last = list.len() - 1;
    let before = path_set(rest);
    let after = path_set(list);
    law_path_set(rest, list[at]);
    lemma_path_rank(before, list[last]);
    let place = path_rank(before, list[last]);
    if at == last {
        assert(after[place] == list[last]);
    } else {
        assert(!same_path(list[last], list[at]));
        assert forall|j: int| at < j < rest.len() implies !same_path(#[trigger] rest[j], rest[at]) by {
            assert(!same_path(list[j], list[at]));
        }
        law_last_path_is_kept(rest, at);
        let k = choose|k: int| 0 <= k < before.len() && before[k] == list[at];
        if place < before.len() && same_path(before[place], list[last]) {
            assert(k != place);
            assert(after[k] == list[at]);
        } else if k < place {
            assert(after[k] == list[at]);
        } else {
            assert(after[k + 1] == list[at]);
        }
    }
}

} // verus!
