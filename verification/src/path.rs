//! File system paths, held as their bytes.
//!
//! A path is read the way a Unix system reads it: `/` separates, repeated and
//! trailing separators mean nothing, and `.` means nothing but at the start.

use vstd::prelude::*;
use vstd::slice::*;
use vstd::string::*;
use crate::lex;
use crate::text;

verus! {

/// The byte `/`.
pub const SLASH: u8 = 47;

/// The byte `.`.
pub const DOT: u8 = 46;

/// What one component of a path is.
pub enum Component {
    /// The `/` that an absolute path starts with.
    Root,
    /// A `.` at the start of a relative path.
    Current,
    /// A `..`.
    Parent,
    /// A name.
    Named(Seq<u8>),
}

/// The stretches of `bytes` between separators, the first and the last one
/// included, empty ones too.
pub open spec fn segments(bytes: Seq<u8>) -> Seq<Seq<u8>>
    decreases bytes.len(),
{
    if bytes.len() == 0 {
        seq![Seq::empty()]
    } else {
        let before = segments(bytes.drop_last());
        if bytes.last() == SLASH {
            before.push(Seq::empty())
        } else {
            before.drop_last().push(before.last().push(bytes.last()))
        }
    }
}

/// The component that a stretch between separators stands for, if any.
pub open spec fn component(segment: Seq<u8>) -> Option<Component> {
    if segment.len() == 0 || segment == seq![DOT] {
        None
    } else if segment == seq![DOT, DOT] {
        Some(Component::Parent)
    } else {
        Some(Component::Named(segment))
    }
}

/// The components that stretches between separators stand for.
pub open spec fn components_of(segs: Seq<Seq<u8>>) -> Seq<Component>
    decreases segs.len(),
{
    if segs.len() == 0 {
        Seq::empty()
    } else {
        let before = components_of(segs.drop_last());
        match component(segs.last()) {
            Some(c) => before.push(c),
            None => before,
        }
    }
}

/// The component that the start of a path stands for, if any.
pub open spec fn leading(bytes: Seq<u8>) -> Seq<Component> {
    if bytes.len() > 0 && bytes[0] == SLASH {
        seq![Component::Root]
    } else if segments(bytes)[0] == seq![DOT] {
        seq![Component::Current]
    } else {
        Seq::empty()
    }
}

/// The components of a path.
pub open spec fn components(bytes: Seq<u8>) -> Seq<Component> {
    leading(bytes) + components_of(segments(bytes))
}

/// Whether two paths have the same components.
pub open spec fn same_path(a: Seq<u8>, b: Seq<u8>) -> bool {
    components(a) == components(b)
}

/// The name that a path ends in, if it ends in one.
pub open spec fn file_name(bytes: Seq<u8>) -> Option<Seq<u8>> {
    let parts = components(bytes);
    if parts.len() == 0 {
        None
    } else {
        match parts.last() {
            Component::Named(name) => Some(name),
            _ => None,
        }
    }
}

/// Whether the text of a component starts with a dot.
pub open spec fn dotted(c: Component) -> bool {
    match c {
        Component::Root => false,
        Component::Current => true,
        Component::Parent => true,
        Component::Named(name) => name.len() > 0 && name[0] == DOT,
    }
}

/// The order of bytes.
pub open spec fn byte_order() -> spec_fn(u8, u8) -> bool {
    |x: u8, y: u8| x < y
}

/// The place of a kind of component among the kinds.
pub open spec fn kind_order(c: Component) -> int {
    match c {
        Component::Root => 0,
        Component::Current => 1,
        Component::Parent => 2,
        Component::Named(_) => 3,
    }
}

/// Whether one component comes before another: by kind, names by their bytes.
pub open spec fn component_less(x: Component, y: Component) -> bool {
    ||| kind_order(x) < kind_order(y)
    ||| match (x, y) {
        (Component::Named(a), Component::Named(b)) => lex::lex_less(a, b, byte_order()),
        _ => false,
    }
}

/// The order of components.
pub open spec fn component_order() -> spec_fn(Component, Component) -> bool {
    |x: Component, y: Component| component_less(x, y)
}

/// Whether path `a` comes before path `b`: component by component.
pub open spec fn path_less(a: Seq<u8>, b: Seq<u8>) -> bool {
    lex::lex_less(components(a), components(b), component_order())
}

/// The order of components is a strict total order.
pub proof fn component_order_is_strict()
    ensures
        lex::strict_order(component_order()),
{
    assert(lex::strict_order(byte_order()));
    lex::lex_is_strict_order(byte_order());
    let less = component_order();
    assert forall|x: Component, y: Component, z: Component| #[trigger]
        less(x, y) && #[trigger] less(y, z) implies less(x, z) by {
        match (x, y, z) {
            (Component::Named(a), Component::Named(b), Component::Named(c)) => {
                assert(lex::lex_less(a, b, byte_order()));
                assert(lex::lex_less(b, c, byte_order()));
            },
            _ => {},
        }
    }
    assert forall|x: Component, y: Component| #[trigger]
        less(x, y) || less(y, x) || x == y by {
        match (x, y) {
            (Component::Named(a), Component::Named(b)) => {
                assert(lex::lex_less(a, b, byte_order()) || lex::lex_less(b, a, byte_order()) || a
                    == b);
            },
            _ => {},
        }
    }
    assert forall|x: Component| !#[trigger] less(x, x) by {
        match x {
            Component::Named(a) => {
                assert(!lex::lex_less(a, a, byte_order()));
            },
            _ => {},
        }
    }
}

/// The order of paths is strict and total, up to having the same components.
pub proof fn path_order_is_strict()
    ensures
        forall|a: Seq<u8>| !#[trigger] path_less(a, a),
        forall|a: Seq<u8>, b: Seq<u8>, c: Seq<u8>|
            #[trigger] path_less(a, b) && #[trigger] path_less(b, c) ==> path_less(a, c),
        forall|a: Seq<u8>, b: Seq<u8>|
            #[trigger] path_less(a, b) || path_less(b, a) || same_path(a, b),
        forall|a: Seq<u8>, b: Seq<u8>| #[trigger] path_less(a, b) ==> !same_path(a, b),
{
    component_order_is_strict();
    lex::lex_is_strict_order(component_order());
}

/// One component of a path.
#[derive(Debug)]
pub enum Part {
    Root,
    Current,
    Parent,
    Named(Vec<u8>),
}

impl View for Part {
    type V = Component;

    open spec fn view(&self) -> Component {
        match *self {
            Part::Root => Component::Root,
            Part::Current => Component::Current,
            Part::Parent => Component::Parent,
            Part::Named(name) => Component::Named(name@),
        }
    }
}

/// The components that `parts` stand for.
pub open spec fn part_views(parts: Seq<Part>) -> Seq<Component> {
    parts.map_values(|p: Part| p@)
}

/// A path.
#[derive(Debug)]
pub struct ProjectPath {
    pub bytes: Vec<u8>,
}

impl View for ProjectPath {
    type V = Seq<u8>;

    open spec fn view(&self) -> Seq<u8> {
        self.bytes@
    }
}

/// The bytes of `paths`.
pub open spec fn path_views(paths: Seq<ProjectPath>) -> Seq<Seq<u8>> {
    paths.map_values(|p: ProjectPath| p@)
}

/// A copy of `bytes`.
pub(crate) fn copy_bytes(bytes: &[u8]) -> (r: Vec<u8>)
    ensures
        r@ == bytes@,
{
    slice_to_vec(bytes)
}

impl Clone for ProjectPath {
    fn clone(&self) -> (r: Self)
        ensures
            r@ == self@,
    {
        ProjectPath { bytes: copy_bytes(self.bytes.as_slice()) }
    }
}

/// The stretches of `bytes` between separators.
fn split_segments(bytes: &[u8]) -> (r: Vec<Vec<u8>>)
    ensures
        r@.map_values(|s: Vec<u8>| s@) == segments(bytes@),
{
    let mut done: Vec<Vec<u8>> = Vec::new();
    let mut current: Vec<u8> = Vec::new();
    let mut i: usize = 0;
    proof {
        assert(bytes@.take(0) =~= Seq::empty());
        assert(done@.map_values(|s: Vec<u8>| s@).push(current@) =~= seq![Seq::<u8>::empty()]);
    }
    while i < bytes.len()
        invariant
            i <= bytes.len(),
            done@.map_values(|s: Vec<u8>| s@).push(current@) == segments(bytes@.take(i as int)),
        decreases bytes.len() - i,
    {
        let b = bytes[i];
        proof {
            assert(bytes@.take(i + 1).drop_last() =~= bytes@.take(i as int));
            assert(bytes@.take(i + 1).last() == b);
        }
        let ghost so_far = done@.map_values(|s: Vec<u8>| s@);
        let ghost open_segment = current@;
        if b == SLASH {
            done.push(current);
            current = Vec::new();
            assert(done@.map_values(|s: Vec<u8>| s@) =~= so_far.push(open_segment));
        } else {
            current.push(b);
            assert(so_far.push(open_segment).drop_last() =~= so_far);
        }
        i += 1;
    }
    assert(bytes@.take(i as int) =~= bytes@);
    let ghost so_far = done@.map_values(|s: Vec<u8>| s@);
    let ghost open_segment = current@;
    done.push(current);
    assert(done@.map_values(|s: Vec<u8>| s@) =~= so_far.push(open_segment));
    done
}

/// Whether `segment` is `.`.
fn is_dot(segment: &Vec<u8>) -> (r: bool)
    ensures
        r == (segment@ == seq![DOT]),
{
    let r = segment.len() == 1 && segment[0] == DOT;
    assert(r ==> segment@ =~= seq![DOT]);
    r
}

/// Whether `segment` is `..`.
fn is_dot_dot(segment: &Vec<u8>) -> (r: bool)
    ensures
        r == (segment@ == seq![DOT, DOT]),
{
    let r = segment.len() == 2 && segment[0] == DOT && segment[1] == DOT;
    assert(r ==> segment@ =~= seq![DOT, DOT]);
    r
}

/// Every path has at least one stretch between separators.
proof fn lemma_segments_nonempty(bytes: Seq<u8>)
    ensures
        segments(bytes).len() > 0,
    decreases bytes.len(),
{
    if bytes.len() > 0 {
        lemma_segments_nonempty(bytes.drop_last());
    }
}

impl ProjectPath {
    /// The path that `text` spells.
    pub fn from_text(text: &str) -> (r: Self)
        ensures
            r@ == text.spec_bytes(),
    {
        ProjectPath { bytes: copy_bytes(text.as_bytes()) }
    }

    /// The components of the path.
    pub fn parts(&self) -> (r: Vec<Part>)
        ensures
            part_views(r@) == components(self@),
    {
        let segs = split_segments(self.bytes.as_slice());
        let ghost seg_views = segs@.map_values(|s: Vec<u8>| s@);
        proof {
            lemma_segments_nonempty(self@);
            assert(segs@.len() == seg_views.len());
            assert(seg_views[0] == segs@[0]@);
        }
        let mut parts: Vec<Part> = Vec::new();
        if self.bytes.len() > 0 && self.bytes[0] == SLASH {
            parts.push(Part::Root);
        } else if is_dot(&segs[0]) {
            parts.push(Part::Current);
        }
        proof {
            assert(part_views(parts@) =~= leading(self@));
            assert(seg_views.take(0) =~= Seq::empty());
            assert(leading(self@) + Seq::<Component>::empty() =~= leading(self@));
        }
        let mut i: usize = 0;
        while i < segs.len()
            invariant
                i <= segs.len(),
                seg_views == segs@.map_values(|s: Vec<u8>| s@),
                part_views(parts@) == leading(self@) + components_of(seg_views.take(i as int)),
            decreases segs.len() - i,
        {
            let ghost before = parts@;
            proof {
                assert(seg_views.take(i + 1).drop_last() =~= seg_views.take(i as int));
                assert(seg_views.take(i + 1).last() == segs@[i as int]@);
            }
            if segs[i].len() == 0 || is_dot(&segs[i]) {
            } else if is_dot_dot(&segs[i]) {
                parts.push(Part::Parent);
                assert(part_views(parts@) =~= part_views(before).push(Component::Parent));
            } else {
                parts.push(Part::Named(copy_bytes(segs[i].as_slice())));
                assert(part_views(parts@) =~= part_views(before).push(
                    Component::Named(segs@[i as int]@),
                ));
            }
            assert(part_views(parts@) =~= leading(self@) + components_of(seg_views.take(i + 1)));
            i += 1;
        }
        assert(seg_views.take(i as int) =~= seg_views);
        parts
    }

    /// The name that the path ends in, if it ends in one.
    pub fn file_name(&self) -> (r: Option<Vec<u8>>)
        ensures
            r is Some <==> file_name(self@) is Some,
            r matches Some(name) ==> Some(name@) == file_name(self@),
    {
        let mut parts = self.parts();
        assert(part_views(parts@).len() == parts@.len());
        match parts.pop() {
            Some(Part::Named(name)) => {
                assert(part_views(parts@.push(Part::Named(name))).last() == Component::Named(
                    name@,
                ));
                Some(name)
            },
            _ => None,
        }
    }

    /// The path `rest` below this folder.
    pub fn join(&self, rest: &str) -> (r: Self)
        requires
            rest@.len() == 0 || rest@[0] != '/',
        ensures
            r@ == joined(self@, rest.spec_bytes()),
    {
        let mut bytes = copy_bytes(self.bytes.as_slice());
        if bytes.len() > 0 && bytes[bytes.len() - 1] != SLASH {
            bytes.push(SLASH);
        }
        let mut more = copy_bytes(rest.as_bytes());
        bytes.append(&mut more);
        ProjectPath { bytes }
    }

    /// The path as text, with what is not UTF-8 replaced.
    pub fn display(&self) -> (r: String)
        ensures
            r@ == text::lossy_text(self@),
            vstd::utf8::valid_utf8(self@) ==> r@ == vstd::utf8::decode_utf8(self@),
    {
        text::to_text(self.bytes.as_slice())
    }
}

/// Whether the bytes `a` come before the bytes `b`.
fn bytes_before(a: &[u8], b: &[u8]) -> (r: bool)
    ensures
        r == lex::lex_less(a@, b@, byte_order()),
{
    proof {
        assert(lex::strict_order(byte_order()));
        lex::lex_is_strict_order(byte_order());
        assert(a@.take(0) =~= b@.take(0));
    }
    let mut i: usize = 0;
    while i < a.len() && i < b.len()
        invariant
            i <= a.len(),
            i <= b.len(),
            a@.take(i as int) == b@.take(i as int),
            lex::lex_less(a@, b@, byte_order()) && lex::lex_less(b@, a@, byte_order())
                ==> lex::lex_less(a@, a@, byte_order()),
            !lex::lex_less(a@, a@, byte_order()),
        decreases a.len() - i,
    {
        if a[i] < b[i] {
            assert(lex::differs_at(a@, b@, byte_order(), i as int));
            return true;
        }
        if b[i] < a[i] {
            assert(lex::differs_at(b@, a@, byte_order(), i as int));
            return false;
        }
        proof {
            assert(a@.take(i + 1) =~= a@.take(i as int).push(a@[i as int]));
            assert(b@.take(i + 1) =~= b@.take(i as int).push(b@[i as int]));
        }
        i += 1;
    }
    proof {
        if i < b.len() {
            assert(lex::differs_at(a@, b@, byte_order(), i as int));
        } else if i < a.len() {
            assert(lex::differs_at(b@, a@, byte_order(), i as int));
        } else {
            assert(a@.take(i as int) =~= a@);
            assert(b@.take(i as int) =~= b@);
        }
    }
    i < b.len()
}

/// The place of a kind of component among the kinds.
fn kind_of(part: &Part) -> (r: u8)
    ensures
        r == kind_order(part@),
{
    match part {
        Part::Root => 0,
        Part::Current => 1,
        Part::Parent => 2,
        Part::Named(_) => 3,
    }
}

/// Whether component `a` comes before component `b`.
fn part_before(a: &Part, b: &Part) -> (r: bool)
    ensures
        r == component_less(a@, b@),
{
    match (a, b) {
        (Part::Named(x), Part::Named(y)) => bytes_before(x.as_slice(), y.as_slice()),
        _ => kind_of(a) < kind_of(b),
    }
}

/// Whether the components `a` come before the components `b`.
pub fn parts_before(a: &Vec<Part>, b: &Vec<Part>) -> (r: bool)
    ensures
        r == lex::lex_less(part_views(a@), part_views(b@), component_order()),
{
    let ghost x = part_views(a@);
    let ghost y = part_views(b@);
    let ghost less = component_order();
    proof {
        component_order_is_strict();
        lex::lex_is_strict_order(less);
        assert(x.take(0) =~= y.take(0));
    }
    let mut i: usize = 0;
    while i < a.len() && i < b.len()
        invariant
            i <= a.len(),
            i <= b.len(),
            x == part_views(a@),
            y == part_views(b@),
            less == component_order(),
            lex::strict_order(less),
            x.take(i as int) == y.take(i as int),
            lex::lex_less(x, y, less) && lex::lex_less(y, x, less) ==> lex::lex_less(x, x, less),
            !lex::lex_less(x, x, less),
        decreases a.len() - i,
    {
        assert(x[i as int] == a@[i as int]@);
        assert(y[i as int] == b@[i as int]@);
        if part_before(&a[i], &b[i]) {
            assert(lex::differs_at(x, y, less, i as int));
            return true;
        }
        if part_before(&b[i], &a[i]) {
            assert(lex::differs_at(y, x, less, i as int));
            return false;
        }
        proof {
            assert(less(x[i as int], y[i as int]) || less(y[i as int], x[i as int]) || x[i as int]
                == y[i as int]);
            assert(x.take(i + 1) =~= x.take(i as int).push(x[i as int]));
            assert(y.take(i + 1) =~= y.take(i as int).push(y[i as int]));
        }
        i += 1;
    }
    proof {
        if i < b.len() {
            assert(lex::differs_at(x, y, less, i as int));
        } else if i < a.len() {
            assert(lex::differs_at(y, x, less, i as int));
        } else {
            assert(x.take(i as int) =~= x);
            assert(y.take(i as int) =~= y);
        }
    }
    i < b.len()
}

/// Whether the components `a` and `b` are the same.
pub fn same_parts(a: &Vec<Part>, b: &Vec<Part>) -> (r: bool)
    ensures
        r == (part_views(a@) == part_views(b@)),
{
    proof {
        component_order_is_strict();
        lex::lex_is_strict_order(component_order());
    }
    !parts_before(a, b) && !parts_before(b, a)
}

impl PartialEq for ProjectPath {
    fn eq(&self, other: &Self) -> (r: bool) {
        same_parts(&self.parts(), &other.parts())
    }
}

impl vstd::std_specs::cmp::PartialEqSpecImpl for ProjectPath {
    open spec fn obeys_eq_spec() -> bool {
        true
    }

    open spec fn eq_spec(&self, other: &Self) -> bool {
        same_path(self@, other@)
    }
}

impl Eq for ProjectPath {

}

proof fn lemma_segment_bytes(bytes: Seq<u8>, n: int, i: int)
    requires
        0 <= n < segments(bytes).len(),
        0 <= i < segments(bytes)[n].len(),
    ensures
        bytes.contains(segments(bytes)[n][i]),
    decreases bytes.len(),
{
    if bytes.len() > 0 {
        let shorter = bytes.drop_last();
        let before = segments(shorter);
        lemma_segments_nonempty(shorter);
        assert(bytes.contains(bytes.last()));
        if n < before.len() && i < before[n].len() {
            lemma_segment_bytes(shorter, n, i);
            let k = choose|k: int| 0 <= k < shorter.len() && shorter[k] == before[n][i];
            assert(bytes[k] == before[n][i]);
        }
    }
}

proof fn lemma_component_is_segment(segs: Seq<Seq<u8>>, n: int)
    requires
        0 <= n < components_of(segs).len(),
        components_of(segs)[n] is Named,
    ensures
        segs.contains(components_of(segs)[n]->Named_0),
    decreases segs.len(),
{
    if segs.len() > 0 {
        let before = components_of(segs.drop_last());
        if n < before.len() {
            lemma_component_is_segment(segs.drop_last(), n);
            let name = before[n]->Named_0;
            let k = choose|k: int| 0 <= k < segs.drop_last().len() && segs.drop_last()[k] == name;
            assert(segs[k] == name);
        } else {
            assert(segs[segs.len() - 1] == segs.last());
        }
    }
}

/// The bytes of a path's name are bytes of the path, and it has at least one.
pub proof fn file_name_is_part_of_path(bytes: Seq<u8>)
    ensures
        file_name(bytes) matches Some(name) ==> name.len() > 0 && forall|i: int|
            0 <= i < name.len() ==> bytes.contains(#[trigger] name[i]),
{
    if file_name(bytes) is Some {
        let name = file_name(bytes)->0;
        let parts = components(bytes);
        let segs = segments(bytes);
        let n = parts.len() - 1 - leading(bytes).len();
        assert(n >= 0) by {
            if n < 0 {
                assert(parts.last() == leading(bytes).last());
            }
        }
        assert(parts.last() == components_of(segs)[n]);
        lemma_component_is_segment(segs, n);
        lemma_component_is_not_empty(segs, n);
        let k = choose|k: int| 0 <= k < segs.len() && segs[k] == name;
        assert forall|i: int| 0 <= i < name.len() implies bytes.contains(#[trigger] name[i]) by {
            lemma_segment_bytes(bytes, k, i);
        }
    }
}

proof fn lemma_component_is_not_empty(segs: Seq<Seq<u8>>, n: int)
    requires
        0 <= n < components_of(segs).len(),
        components_of(segs)[n] is Named,
    ensures
        components_of(segs)[n]->Named_0.len() > 0,
    decreases segs.len(),
{
    if segs.len() > 0 {
        let before = components_of(segs.drop_last());
        if n < before.len() {
            lemma_component_is_not_empty(segs.drop_last(), n);
        }
    }
}

/// The path `rest` below the folder `dir`, where `rest` is not absolute.
pub open spec fn joined(dir: Seq<u8>, rest: Seq<u8>) -> Seq<u8> {
    if dir.len() == 0 || dir.last() == SLASH {
        dir + rest
    } else {
        dir.push(SLASH) + rest
    }
}

/// Copies of `paths`.
pub fn clone_paths(paths: &[ProjectPath]) -> (r: Vec<ProjectPath>)
    ensures
        path_views(r@) == path_views(paths@),
{
    let mut r: Vec<ProjectPath> = Vec::new();
    let mut i: usize = 0;
    while i < paths.len()
        invariant
            i <= paths.len(),
            r.len() == i,
            forall|k: int| 0 <= k < i ==> (#[trigger] r@[k])@ == paths@[k]@,
        decreases paths.len() - i,
    {
        r.push(paths[i].clone());
        i += 1;
    }
    assert(path_views(r@) =~= path_views(paths@));
    r
}

proof fn lemma_segments_below(dir: Seq<u8>, rest: Seq<u8>)
    ensures
        segments(dir.push(SLASH) + rest) == segments(dir) + segments(rest),
    decreases rest.len(),
{
    let whole = dir.push(SLASH) + rest;
    if rest.len() == 0 {
        assert(whole.drop_last() =~= dir);
        assert(whole.last() == SLASH);
        assert(segments(whole) =~= segments(dir) + segments(rest));
    } else {
        let shorter = rest.drop_last();
        lemma_segments_below(dir, shorter);
        lemma_segments_nonempty(shorter);
        assert(whole.drop_last() =~= dir.push(SLASH) + shorter);
        assert(whole.last() == rest.last());
        let before = segments(dir) + segments(shorter);
        assert(before.last() == segments(shorter).last());
        assert(segments(whole) =~= segments(dir) + segments(rest));
    }
}

proof fn lemma_components_of_both(a: Seq<Seq<u8>>, b: Seq<Seq<u8>>)
    ensures
        components_of(a + b) == components_of(a) + components_of(b),
    decreases b.len(),
{
    if b.len() == 0 {
        assert(a + b =~= a);
        assert(components_of(a + b) =~= components_of(a) + components_of(b));
    } else {
        lemma_components_of_both(a, b.drop_last());
        assert((a + b).drop_last() =~= a + b.drop_last());
        assert((a + b).last() == b.last());
        assert(components_of(a + b) =~= components_of(a) + components_of(b));
    }
}

/// What lies below a folder has the components of the folder, followed by those
/// that lead on from it.
pub proof fn below_keeps_components(dir: Seq<u8>, rest: Seq<u8>)
    requires
        dir.len() > 0,
    ensures
        components(dir.push(SLASH) + rest) == components(dir) + components_of(segments(rest)),
{
    let whole = dir.push(SLASH) + rest;
    lemma_segments_below(dir, rest);
    lemma_segments_nonempty(dir);
    lemma_components_of_both(segments(dir), segments(rest));
    assert(whole[0] == dir[0]);
    assert(segments(whole)[0] == segments(dir)[0]);
    assert(leading(whole) == leading(dir));
    assert(components(whole) =~= components(dir) + components_of(segments(rest)));
}

/// Whether `bytes` hold `part` from `at` on.
pub open spec fn holds_bytes_at(bytes: Seq<u8>, part: Seq<u8>, at: int) -> bool {
    &&& 0 <= at
    &&& at + part.len() <= bytes.len()
    &&& bytes.subrange(at, at + part.len()) == part
}

proof fn lemma_last_segment(bytes: Seq<u8>)
    ensures
        segments(bytes).len() > 0,
        holds_bytes_at(bytes, segments(bytes).last(), bytes.len() - segments(bytes).last().len()),
    decreases bytes.len(),
{
    if bytes.len() > 0 {
        let shorter = bytes.drop_last();
        lemma_last_segment(shorter);
        let part = segments(shorter).last();
        let last = segments(bytes).last();
        if bytes.last() != SLASH {
            assert(last == part.push(bytes.last()));
            let at = bytes.len() - last.len();
            assert(shorter.subrange(at, at + part.len()) == part);
            assert(bytes.subrange(at, at + last.len()) =~= last) by {
                assert forall|i: int| 0 <= i < last.len() implies bytes.subrange(
                    at,
                    at + last.len(),
                )[i] == last[i] by {
                    if i < part.len() {
                        assert(shorter.subrange(at, at + part.len())[i] == part[i]);
                    }
                }
            }
        } else {
            assert(bytes.subrange(bytes.len() as int, bytes.len() as int) =~= last);
        }
    } else {
        assert(bytes.subrange(0, 0) =~= segments(bytes).last());
    }
}

proof fn lemma_segment_place(bytes: Seq<u8>, n: int)
    requires
        0 <= n < segments(bytes).len(),
    ensures
        exists|at: int| holds_bytes_at(bytes, segments(bytes)[n], at),
    decreases bytes.len(),
{
    lemma_last_segment(bytes);
    if n < segments(bytes).len() - 1 {
        let shorter = bytes.drop_last();
        lemma_segments_nonempty(shorter);
        assert(segments(shorter)[n] == segments(bytes)[n]);
        lemma_segment_place(shorter, n);
        let part = segments(shorter)[n];
        let at = choose|at: int| holds_bytes_at(shorter, part, at);
        assert(bytes.subrange(at, at + part.len()) =~= shorter.subrange(at, at + part.len()));
        assert(holds_bytes_at(bytes, segments(bytes)[n], at));
    } else {
        assert(holds_bytes_at(
            bytes,
            segments(bytes)[n],
            bytes.len() - segments(bytes).last().len(),
        ));
    }
}

/// A path holds its name.
pub proof fn path_holds_file_name(bytes: Seq<u8>) -> (at: int)
    requires
        file_name(bytes) is Some,
    ensures
        holds_bytes_at(bytes, file_name(bytes)->0, at),
{
    let name = file_name(bytes)->0;
    let parts = components(bytes);
    let segs = segments(bytes);
    let n = parts.len() - 1 - leading(bytes).len();
    assert(n >= 0) by {
        if n < 0 {
            assert(parts.last() == leading(bytes).last());
        }
    }
    assert(parts.last() == components_of(segs)[n]);
    lemma_component_is_segment(segs, n);
    let k = choose|k: int| 0 <= k < segs.len() && segs[k] == name;
    lemma_segment_place(bytes, k);
    choose|at: int| holds_bytes_at(bytes, name, at)
}

/// A stretch without a slash, byte 47, is one segment, and a slash before it sets it
/// off from what comes before, whatever that is.
pub proof fn slashes_part_segments(before: Seq<u8>, stretch: Seq<u8>)
    requires
        forall|i: int| 0 <= i < stretch.len() ==> #[trigger] stretch[i] != 47,
    ensures
        segments(stretch) == seq![stretch],
        segments(before.push(47) + stretch) == segments(before).push(stretch),
    decreases stretch.len(),
{
    if stretch.len() > 0 {
        let shorter = stretch.drop_last();
        assert forall|i: int| 0 <= i < shorter.len() implies #[trigger] shorter[i] != 47 by {
            assert(shorter[i] == stretch[i]);
        }
        slashes_part_segments(before, shorter);
        assert(stretch[stretch.len() - 1] != 47);
        assert(shorter.push(stretch.last()) =~= stretch);
        assert(segments(stretch) =~= seq![stretch]);
    } else {
        assert(stretch =~= Seq::<u8>::empty());
    }
    assert(SLASH == 47u8);
    lemma_segments_below(before, stretch);
    assert(segments(before) + seq![stretch] =~= segments(before).push(stretch));
}

/// What one stretch without a slash adds to a path: nothing if it is empty or one
/// dot, byte 46, a step up if it is two dots, else a name, which is the stretch byte
/// for byte.
pub proof fn stretch_adds_a_component(dir: Seq<u8>, stretch: Seq<u8>)
    requires
        dir.len() > 0,
        forall|i: int| 0 <= i < stretch.len() ==> #[trigger] stretch[i] != 47,
    ensures
        stretch.len() == 0 || stretch == seq![46u8] ==> components(dir.push(47) + stretch)
            == components(dir),
        stretch == seq![46u8, 46u8] ==> components(dir.push(47) + stretch) == components(dir).push(
            Component::Parent,
        ),
        stretch.len() > 0 && stretch != seq![46u8] && stretch != seq![46u8, 46u8] ==> components(
            dir.push(47) + stretch,
        ) == components(dir).push(Component::Named(stretch)),
{
    slashes_part_segments(dir, stretch);
    below_keeps_components(dir, stretch);
    reveal_with_fuel(components_of, 2);
    let segs = seq![stretch];
    assert(segs.drop_last() =~= Seq::<Seq<u8>>::empty());
    assert(segs.last() == stretch);
    assert(SLASH == 47u8 && DOT == 46u8);
    assert(seq![46u8].len() == 1 && seq![46u8, 46u8].len() == 2);
    assert(components(dir) + Seq::<Component>::empty() =~= components(dir));
    assert(components(dir) + seq![Component::Parent] =~= components(dir).push(Component::Parent));
    assert(components(dir) + seq![Component::Named(stretch)] =~= components(dir).push(
        Component::Named(stretch),
    ));
    assert(Seq::<Component>::empty().push(Component::Parent) =~= seq![Component::Parent]);
    assert(Seq::<Component>::empty().push(Component::Named(stretch)) =~= seq![
        Component::Named(stretch),
    ]);
}

/// What a path starts with: a slash is the root, one dot before anything else the
/// current folder, two dots a step up, and nothing is nothing; else the first stretch
/// is a name. Behind the slash of the root one dot means nothing.
pub proof fn first_stretch_of_a_path(stretch: Seq<u8>)
    requires
        forall|i: int| 0 <= i < stretch.len() ==> #[trigger] stretch[i] != 47,
    ensures
        stretch.len() == 0 ==> components(stretch) == Seq::<Component>::empty()
            && components(seq![47u8] + stretch) == seq![Component::Root],
        stretch == seq![46u8] ==> components(stretch) == seq![Component::Current]
            && components(seq![47u8] + stretch) == seq![Component::Root],
        stretch == seq![46u8, 46u8] ==> components(stretch) == seq![Component::Parent]
            && components(seq![47u8] + stretch) == seq![Component::Root, Component::Parent],
        stretch.len() > 0 && stretch != seq![46u8] && stretch != seq![46u8, 46u8] ==> components(
            stretch,
        ) == seq![Component::Named(stretch)] && components(seq![47u8] + stretch) == seq![
            Component::Root,
            Component::Named(stretch),
        ],
{
    let none = Seq::<u8>::empty();
    slashes_part_segments(none, stretch);
    let rooted = seq![47u8] + stretch;
    assert(none.push(47) + stretch =~= rooted);
    slashes_part_segments(none, none);
    reveal_with_fuel(components_of, 3);
    let (one, two) = (seq![stretch], seq![none].push(stretch));
    assert(segments(stretch) == one && segments(rooted) == two);
    assert(one.drop_last() =~= Seq::<Seq<u8>>::empty());
    assert(one.last() == stretch && one[0] == stretch);
    assert(two.drop_last() =~= seq![none]);
    assert(seq![none].drop_last() =~= Seq::<Seq<u8>>::empty());
    assert(seq![none].last() == none);
    assert(two.last() == stretch && two[0] == none);
    assert(SLASH == 47u8 && DOT == 46u8);
    assert(seq![46u8].len() == 1 && seq![46u8, 46u8].len() == 2);
    assert(stretch.len() > 0 ==> stretch[0] != 47);
    assert(rooted[0] == 47);
    let start = leading(rooted);
    assert(start =~= seq![Component::Root]);
    let named = Component::Named(stretch);
    assert(components_of(seq![none]) =~= Seq::<Component>::empty());
    if stretch.len() == 0 || stretch == seq![46u8] {
        assert(components_of(one) =~= Seq::<Component>::empty());
        assert(components_of(two) =~= Seq::<Component>::empty());
        assert(components(rooted) =~= seq![Component::Root]);
        if stretch.len() == 0 {
            assert(one[0] != seq![DOT]);
            assert(components(stretch) =~= Seq::<Component>::empty());
        } else {
            assert(components(stretch) =~= seq![Component::Current]);
        }
    } else if stretch == seq![46u8, 46u8] {
        assert(components_of(one) =~= seq![Component::Parent]);
        assert(components_of(two) =~= seq![Component::Parent]);
        assert(components(stretch) =~= seq![Component::Parent]);
        assert(components(rooted) =~= seq![Component::Root, Component::Parent]);
    } else {
        assert(components_of(one) =~= seq![named]);
        assert(components_of(two) =~= seq![named]);
        assert(components(stretch) =~= seq![named]);
        assert(components(rooted) =~= seq![Component::Root, named]);
    }
}

/// The name of a path is what stands behind its last slash, byte for byte. Slashes at
/// the end, and single dots, leave it as it is; a path that ends in two dots has none.
pub proof fn name_stands_behind_the_last_slash(dir: Seq<u8>, stretch: Seq<u8>)
    requires
        forall|i: int| 0 <= i < stretch.len() ==> #[trigger] stretch[i] != 47,
    ensures
        stretch.len() > 0 && stretch != seq![46u8] && stretch != seq![46u8, 46u8] ==> file_name(
            dir.push(47) + stretch,
        ) == Some(stretch) && file_name(stretch) == Some(stretch),
        dir.len() > 0 && (stretch.len() == 0 || stretch == seq![46u8]) ==> file_name(
            dir.push(47) + stretch,
        ) == file_name(dir),
        stretch == seq![46u8, 46u8] ==> file_name(dir.push(47) + stretch) is None && file_name(
            stretch,
        ) is None,
        stretch.len() == 0 || stretch == seq![46u8] ==> file_name(stretch) is None && file_name(
            seq![47u8] + stretch,
        ) is None,
{
    first_stretch_of_a_path(stretch);
    assert(seq![46u8].len() == 1 && seq![46u8, 46u8].len() == 2);
    if dir.len() > 0 {
        stretch_adds_a_component(dir, stretch);
    } else {
        assert(dir.push(47) + stretch =~= seq![47u8] + stretch);
    }
}

/// A component starts with a dot if it is one, or two, or a name whose first byte is
/// 46; no other does, the root least of all.
pub proof fn dotted_components_start_with_a_dot(name: Seq<u8>)
    ensures
        dotted(Component::Named(name)) <==> name.len() > 0 && name[0] == 46,
        dotted(Component::Current),
        dotted(Component::Parent),
        !dotted(Component::Root),
{
}

/// A path that leads on from another comes after it.
pub proof fn folder_comes_before_what_is_below(p: Seq<u8>, q: Seq<u8>, more: Seq<Component>)
    requires
        components(q) == components(p) + more,
        more.len() > 0,
    ensures
        path_less(p, q),
        !path_less(q, p),
        !same_path(p, q),
{
    component_order_is_strict();
    lex::shorter_comes_first(components(p), more, component_order());
    assert(components(p).len() < components(q).len());
}

/// The first components in which two paths differ decide on their order: the root
/// before the current folder, that before a step up, that before a name; of two names
/// the one with the smaller byte where they first differ, or the one that ends first.
pub proof fn first_component_that_differs_decides(
    p: Seq<u8>,
    q: Seq<u8>,
    common: Seq<Component>,
    x: Component,
    a: Seq<Component>,
    y: Component,
    b: Seq<Component>,
    k: int,
)
    requires
        components(p) == common.push(x) + a,
        components(q) == common.push(y) + b,
        match (x, y) {
            (Component::Root, _) => y !is Root,
            (Component::Current, _) => y is Parent || y is Named,
            (Component::Parent, _) => y is Named,
            (Component::Named(s), Component::Named(t)) => {
                &&& 0 <= k <= s.len()
                &&& k < t.len()
                &&& s.take(k) == t.take(k)
                &&& k == s.len() || s[k] < t[k]
            },
            (Component::Named(_), _) => false,
        },
    ensures
        path_less(p, q),
        !path_less(q, p),
        !same_path(p, q),
{
    component_order_is_strict();
    let less = component_order();
    if x is Named {
        let (s, t) = (x->Named_0, y->Named_0);
        assert(lex::differs_at(s, t, byte_order(), k));
        assert(lex::lex_less(s, t, byte_order()));
    }
    assert(less(x, y));
    assert(x != y);
    lex::first_difference_decides(common, x, a, y, b, less);
    path_order_is_strict();
}

/// Joining sets one slash between the two, unless the first is empty or ends in one,
/// and leaves both as they are.
pub proof fn joining_sets_one_slash(dir: Seq<u8>, rest: Seq<u8>)
    ensures
        joined(dir, rest).take(dir.len() as int) == dir,
        joined(dir, rest).skip(joined(dir, rest).len() - rest.len()) == rest,
        joined(dir, rest).len() == dir.len() + rest.len() + (if dir.len() == 0 || dir.last()
            == 47 {
            0int
        } else {
            1int
        }),
        dir.len() > 0 && dir.last() != 47 ==> joined(dir, rest)[dir.len() as int] == 47,
{
    assert(joined(dir, rest).take(dir.len() as int) =~= dir);
    assert(joined(dir, rest).skip(joined(dir, rest).len() - rest.len()) =~= rest);
}

/// Two paths are the same exactly if they have the same components in the same order.
pub proof fn same_paths_have_the_same_components(a: Seq<u8>, b: Seq<u8>)
    ensures
        same_path(a, b) <==> components(a).len() == components(b).len() && forall|i: int|
            0 <= i < components(a).len() ==> #[trigger] components(a)[i] == components(b)[i],
{
    if components(a).len() == components(b).len() && forall|i: int|
        0 <= i < components(a).len() ==> #[trigger] components(a)[i] == components(b)[i] {
        assert(components(a) =~= components(b));
    }
}

/// What stands for a list of paths are their bytes, place by place.
pub proof fn lists_of_paths_are_read_in_place(paths: Seq<ProjectPath>, parts: Seq<Part>)
    ensures
        path_views(paths).len() == paths.len(),
        forall|i: int|
            0 <= i < paths.len() ==> #[trigger] path_views(paths)[i] == paths[i].bytes@,
        part_views(parts).len() == parts.len(),
        forall|i: int|
            0 <= i < parts.len() ==> match parts[i] {
                Part::Root => #[trigger] part_views(parts)[i] is Root,
                Part::Current => part_views(parts)[i] is Current,
                Part::Parent => part_views(parts)[i] is Parent,
                Part::Named(name) => part_views(parts)[i] == Component::Named(name@),
            },
{
}

} // verus!
