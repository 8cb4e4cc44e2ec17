//! The Specctra DSN design: its data model and the reader that builds it from
//! the S-expression text of a `.dsn` file.
//!
//! Angles (component and pin rotations) are kept as the text the file gives
//! them; turning them into pin offsets is left to the caller (see
//! [`PinOffsets`]).

use vstd::prelude::*;
use crate::sexp::{Sexp, SexpView, sexps_view, lemma_sexps_view, atom_of, children_of, name_of, find_child, parse_text, lemma_find_child};
use crate::number::{number_value, number_from_text, lower, eq_ignore_case, eq_ignore_case_at, push_range};
use crate::text::{chars_of, string_from_chars, str_eq};

verus! {

// ─── data model ───────────────────────────────────────────────────────────────

#[derive(Clone, Copy, Debug, PartialEq, Eq, Structural)]
pub struct Point {
    pub x: i64,
    pub y: i64,
}

#[derive(Debug, Clone)]
pub struct Resolution {
    pub unit: String,
    pub value: i64,
}

#[derive(Debug, Clone)]
pub struct Layer {
    pub name: String,
    pub layer_type: String,
    pub index: usize,
}

#[derive(Debug, Clone)]
pub struct Boundary {
    pub points: Vec<Point>,
    pub min_x: i64,
    pub min_y: i64,
    pub max_x: i64,
    pub max_y: i64,
}

#[derive(Clone, Copy, Debug, PartialEq, Eq, Structural)]
pub struct DesignRule {
    pub trace_width: i64,
    pub clearance: i64,
}

#[derive(Clone, Copy, Debug, PartialEq, Eq, Structural)]
pub enum Side {
    Front,
    Back,
}

/// One placement of a component. `rotation` is the angle in degrees as the
/// file writes it (empty when the file gives none).
#[derive(Debug, Clone)]
pub struct Place {
    pub reference: String,
    pub x: i64,
    pub y: i64,
    pub side: Side,
    pub rotation: String,
}

#[derive(Debug, Clone)]
pub struct Component {
    pub image_name: String,
    pub places: Vec<Place>,
}

/// A pin of an image. `rotation` is the angle in degrees as the file writes
/// it (empty when the file gives none).
#[derive(Debug, Clone)]
pub struct ImagePin {
    pub padstack_name: String,
    pub pin_number: String,
    pub x: i64,
    pub y: i64,
    pub rotation: String,
}

#[derive(Debug, Clone)]
pub struct Image {
    pub name: String,
    pub outlines: Vec<Vec<Point>>,
    pub pins: Vec<ImagePin>,
}

#[derive(Debug, Clone)]
pub enum PadShape {
    Circle { layer: String, diameter: i64 },
    Rect { layer: String, x1: i64, y1: i64, x2: i64, y2: i64 },
    Oval { layer: String, width: i64, height: i64 },
    Polygon { layer: String, points: Vec<Point> },
    Path { layer: String, width: i64, points: Vec<Point> },
}

#[derive(Debug, Clone)]
pub struct Padstack {
    pub name: String,
    pub shapes: Vec<PadShape>,
    pub attach: bool,
}

#[derive(Debug, Clone)]
pub struct PinRef {
    pub component: String,
    pub pin: String,
}

#[derive(Debug, Clone)]
pub struct Net {
    pub name: String,
    pub pins: Vec<PinRef>,
}

#[derive(Debug, Clone)]
pub struct Wire {
    pub net_name: String,
    pub layer: String,
    pub width: i64,
    pub points: Vec<Point>,
}

/// A whole design. `images` and `padstacks` are libraries keyed by name:
/// the reader keeps their names distinct, and a lookup takes the first entry
/// with the name.
#[derive(Debug, Clone)]
pub struct DsnDesign {
    pub name: String,
    pub resolution: Resolution,
    pub unit: String,
    pub layers: Vec<Layer>,
    pub boundary: Boundary,
    pub rules: DesignRule,
    pub components: Vec<Component>,
    pub images: Vec<Image>,
    pub padstacks: Vec<Padstack>,
    pub nets: Vec<Net>,
    pub wiring: Vec<Wire>,
}

// ─── views ────────────────────────────────────────────────────────────────────

pub struct ResolutionView {
    pub unit: Seq<char>,
    pub value: i64,
}

pub struct LayerView {
    pub name: Seq<char>,
    pub layer_type: Seq<char>,
    pub index: usize,
}

pub struct BoundaryView {
    pub points: Seq<Point>,
    pub min_x: i64,
    pub min_y: i64,
    pub max_x: i64,
    pub max_y: i64,
}

pub struct PlaceView {
    pub reference: Seq<char>,
    pub x: i64,
    pub y: i64,
    pub side: Side,
    pub rotation: Seq<char>,
}

pub struct ComponentView {
    pub image_name: Seq<char>,
    pub places: Seq<PlaceView>,
}

pub struct ImagePinView {
    pub padstack_name: Seq<char>,
    pub pin_number: Seq<char>,
    pub x: i64,
    pub y: i64,
    pub rotation: Seq<char>,
}

pub struct ImageView {
    pub name: Seq<char>,
    pub outlines: Seq<Seq<Point>>,
    pub pins: Seq<ImagePinView>,
}

pub enum PadShapeView {
    Circle { layer: Seq<char>, diameter: i64 },
    Rect { layer: Seq<char>, x1: i64, y1: i64, x2: i64, y2: i64 },
    Oval { layer: Seq<char>, width: i64, height: i64 },
    Polygon { layer: Seq<char>, points: Seq<Point> },
    Path { layer: Seq<char>, width: i64, points: Seq<Point> },
}

pub struct PadstackView {
    pub name: Seq<char>,
    pub shapes: Seq<PadShapeView>,
    pub attach: bool,
}

pub struct PinRefView {
    pub component: Seq<char>,
    pub pin: Seq<char>,
}

pub struct NetView {
    pub name: Seq<char>,
    pub pins: Seq<PinRefView>,
}

pub struct WireView {
    pub net_name: Seq<char>,
    pub layer: Seq<char>,
    pub width: i64,
    pub points: Seq<Point>,
}

pub struct DesignView {
    pub name: Seq<char>,
    pub resolution: ResolutionView,
    pub unit: Seq<char>,
    pub layers: Seq<LayerView>,
    pub boundary: BoundaryView,
    pub rules: DesignRule,
    pub components: Seq<ComponentView>,
    pub images: Seq<ImageView>,
    pub padstacks: Seq<PadstackView>,
    pub nets: Seq<NetView>,
    pub wiring: Seq<WireView>,
}

impl View for Resolution {
    type V = ResolutionView;

    open spec fn view(&self) -> ResolutionView {
        ResolutionView { unit: self.unit@, value: self.value }
    }
}

impl View for Layer {
    type V = LayerView;

    open spec fn view(&self) -> LayerView {
        LayerView { name: self.name@, layer_type: self.layer_type@, index: self.index }
    }
}

impl View for Boundary {
    type V = BoundaryView;

    open spec fn view(&self) -> BoundaryView {
        BoundaryView {
            points: self.points@,
            min_x: self.min_x,
            min_y: self.min_y,
            max_x: self.max_x,
            max_y: self.max_y,
        }
    }
}

impl View for Place {
    type V = PlaceView;

    open spec fn view(&self) -> PlaceView {
        PlaceView {
            reference: self.reference@,
            x: self.x,
            y: self.y,
            side: self.side,
            rotation: self.rotation@,
        }
    }
}

impl View for Component {
    type V = ComponentView;

    open spec fn view(&self) -> ComponentView {
        ComponentView {
            image_name: self.image_name@,
            places: self.places@.map_values(|p: Place| p@),
        }
    }
}

impl View for ImagePin {
    type V = ImagePinView;

    open spec fn view(&self) -> ImagePinView {
        ImagePinView {
            padstack_name: self.padstack_name@,
            pin_number: self.pin_number@,
            x: self.x,
            y: self.y,
            rotation: self.rotation@,
        }
    }
}

impl View for Image {
    type V = ImageView;

    open spec fn view(&self) -> ImageView {
        ImageView {
            name: self.name@,
            outlines: self.outlines@.map_values(|o: Vec<Point>| o@),
            pins: self.pins@.map_values(|p: ImagePin| p@),
        }
    }
}

impl View for PadShape {
    type V = PadShapeView;

    open spec fn view(&self) -> PadShapeView {
        match self {
            PadShape::Circle { layer, diameter } => PadShapeView::Circle {
                layer: layer@,
                diameter: *diameter,
            },
            PadShape::Rect { layer, x1, y1, x2, y2 } => PadShapeView::Rect {
                layer: layer@,
                x1: *x1,
                y1: *y1,
                x2: *x2,
                y2: *y2,
            },
            PadShape::Oval { layer, width, height } => PadShapeView::Oval {
                layer: layer@,
                width: *width,
                height: *height,
            },
            PadShape::Polygon { layer, points } => PadShapeView::Polygon {
                layer: layer@,
                points: points@,
            },
            PadShape::Path { layer, width, points } => PadShapeView::Path {
                layer: layer@,
                width: *width,
                points: points@,
            },
        }
    }
}

impl View for Padstack {
    type V = PadstackView;

    open spec fn view(&self) -> PadstackView {
        PadstackView {
            name: self.name@,
            shapes: self.shapes@.map_values(|s: PadShape| s@),
            attach: self.attach,
        }
    }
}

impl View for PinRef {
    type V = PinRefView;

    open spec fn view(&self) -> PinRefView {
        PinRefView { component: self.component@, pin: self.pin@ }
    }
}

impl View for Net {
    type V = NetView;

    open spec fn view(&self) -> NetView {
        NetView { name: self.name@, pins: self.pins@.map_values(|p: PinRef| p@) }
    }
}

impl View for Wire {
    type V = WireView;

    open spec fn view(&self) -> WireView {
        WireView {
            net_name: self.net_name@,
            layer: self.layer@,
            width: self.width,
            points: self.points@,
        }
    }
}

impl View for DsnDesign {
    type V = DesignView;

    open spec fn view(&self) -> DesignView {
        DesignView {
            name: self.name@,
            resolution: self.resolution@,
            unit: self.unit@,
            layers: self.layers@.map_values(|l: Layer| l@),
            boundary: self.boundary@,
            rules: self.rules,
            components: self.components@.map_values(|c: Component| c@),
            images: self.images@.map_values(|i: Image| i@),
            padstacks: self.padstacks@.map_values(|p: Padstack| p@),
            nets: self.nets@.map_values(|n: Net| n@),
            wiring: self.wiring@.map_values(|w: Wire| w@),
        }
    }
}

// ─── reading helpers ──────────────────────────────────────────────────────────

/// The atom at `items[i]`, if there is one there.
pub open spec fn atom_at(items: Seq<SexpView>, i: int) -> Option<Seq<char>> {
    if 0 <= i < items.len() {
        atom_of(items[i])
    } else {
        None
    }
}

/// The atom at `items[i]`, or `d`.
pub open spec fn atom_or(items: Seq<SexpView>, i: int, d: Seq<char>) -> Seq<char> {
    match atom_at(items, i) {
        Some(a) => a,
        None => d,
    }
}

/// A node's atom text; empty for a list.
pub open spec fn atom_text(v: SexpView) -> Seq<char> {
    match atom_of(v) {
        Some(a) => a,
        None => Seq::empty(),
    }
}

/// The integer value of a node (zero for a list or a non-number).
pub open spec fn num(v: SexpView) -> i64 {
    number_value(atom_text(v))
}

/// The integer value of `items[i]`, or `d` when there is no such item.
pub open spec fn num_or(items: Seq<SexpView>, i: int, d: i64) -> i64 {
    if 0 <= i < items.len() {
        num(items[i])
    } else {
        d
    }
}

/// The text of `items[i]` taken as an angle: its atom text, or empty.
pub open spec fn angle_at(items: Seq<SexpView>, i: int) -> Seq<char> {
    if 0 <= i < items.len() {
        atom_text(items[i])
    } else {
        Seq::empty()
    }
}

/// A node's children; empty for an atom.
pub open spec fn items_of(v: SexpView) -> Seq<SexpView> {
    match children_of(v) {
        Some(c) => c,
        None => Seq::empty(),
    }
}

pub open spec fn has_name(v: SexpView, key: Seq<char>) -> bool {
    name_of(v) == Some(key)
}

/// Coordinate pairs from `items[i..]`: `(x, y)` for each two items, up to the
/// last complete pair; with `atoms_only`, stopping at the first pair that is
/// not two atoms.
pub open spec fn pairs_from(items: Seq<SexpView>, i: int, atoms_only: bool) -> Seq<Point>
    decreases items.len() - i,
{
    if i < 0 || i + 1 >= items.len() {
        Seq::empty()
    } else if atoms_only && (atom_of(items[i]) is None || atom_of(items[i + 1]) is None) {
        Seq::empty()
    } else {
        seq![Point { x: num(items[i]), y: num(items[i + 1]) }] + pairs_from(items, i + 2, atoms_only)
    }
}

fn is_named(s: &Sexp, key: &str) -> (r: bool)
    ensures
        r == has_name(s@, key@),
{
    match s.name() {
        Some(n) => str_eq(n, key),
        None => false,
    }
}

fn atom_at_exec<'a>(items: &'a [Sexp], i: usize) -> (r: Option<&'a str>)
    ensures
        match r {
            Some(a) => atom_at(sexps_view(items@), i as int) == Some(a@),
            None => atom_at(sexps_view(items@), i as int) is None,
        },
{
    proof {
        lemma_sexps_view(items@);
    }
    if i < items.len() {
        items[i].as_atom()
    } else {
        None
    }
}

fn atom_or_exec(items: &[Sexp], i: usize, d: &str) -> (r: String)
    ensures
        r@ == atom_or(sexps_view(items@), i as int, d@),
{
    match atom_at_exec(items, i) {
        Some(a) => a.to_owned(),
        None => d.to_owned(),
    }
}

fn atom_text_exec(s: &Sexp) -> (r: &str)
    ensures
        r@ == atom_text(s@),
{
    proof {
        reveal_strlit("");
    }
    match s.as_atom() {
        Some(a) => a,
        None => "",
    }
}

fn num_exec(s: &Sexp) -> (r: i64)
    ensures
        r == num(s@),
{
    number_from_text(atom_text_exec(s))
}

fn num_or_exec(items: &[Sexp], i: usize, d: i64) -> (r: i64)
    ensures
        r == num_or(sexps_view(items@), i as int, d),
{
    proof {
        lemma_sexps_view(items@);
    }
    if i < items.len() {
        num_exec(&items[i])
    } else {
        d
    }
}

fn angle_at_exec(items: &[Sexp], i: usize) -> (r: String)
    ensures
        r@ == angle_at(sexps_view(items@), i as int),
{
    proof {
        lemma_sexps_view(items@);
    }
    if i < items.len() {
        atom_text_exec(&items[i]).to_owned()
    } else {
        proof {
            reveal_strlit("");
        }
        "".to_owned()
    }
}

fn pairs_from_exec(items: &[Sexp], start: usize, atoms_only: bool) -> (r: Vec<Point>)
    ensures
        r@ == pairs_from(sexps_view(items@), start as int, atoms_only),
{
    let ghost v = sexps_view(items@);
    proof {
        lemma_sexps_view(items@);
    }
    let mut out: Vec<Point> = Vec::new();
    let mut i = start;
    while i < items.len() && i + 1 < items.len()
        invariant
            start <= i,
            v == sexps_view(items@),
            v.len() == items@.len(),
            forall|k: int| 0 <= k < v.len() ==> #[trigger] v[k] == items@[k]@,
            pairs_from(v, start as int, atoms_only) == out@ + pairs_from(v, i as int, atoms_only),
        decreases items.len() - i,
    {
        if atoms_only && (items[i].as_atom().is_none() || items[i + 1].as_atom().is_none()) {
            proof {
                assert(pairs_from(v, i as int, atoms_only) =~= Seq::<Point>::empty());
                assert(out@ + Seq::<Point>::empty() =~= out@);
            }
            return out;
        }
        let p = Point { x: num_exec(&items[i]), y: num_exec(&items[i + 1]) };
        proof {
            assert(out@.push(p) + pairs_from(v, i + 2, atoms_only) =~= out@ + (seq![p] + pairs_from(v, i + 2, atoms_only)));
        }
        out.push(p);
        i = i + 2;
    }
    proof {
        assert(pairs_from(v, i as int, atoms_only) =~= Seq::<Point>::empty());
        assert(out@ + Seq::<Point>::empty() =~= out@);
    }
    out
}

// ─── pin references ───────────────────────────────────────────────────────────

/// First index at or after `i` that does not hold `"`.
pub open spec fn lead_end(s: Seq<char>, i: int) -> int
    decreases s.len() - i,
{
    if 0 <= i < s.len() && s[i] == '"' {
        lead_end(s, i + 1)
    } else {
        i
    }
}

/// Start of the run of `"` that ends at `j`.
pub open spec fn trail_start(s: Seq<char>, j: int) -> int
    decreases j,
{
    if 0 < j <= s.len() && s[j - 1] == '"' {
        trail_start(s, j - 1)
    } else {
        j
    }
}

/// `s` without the `"` characters at its start and at its end.
pub open spec fn trim_quotes(s: Seq<char>) -> Seq<char> {
    let a = lead_end(s, 0);
    if a >= s.len() {
        Seq::empty()
    } else {
        s.subrange(a, trail_start(s, s.len() as int))
    }
}

/// First index at or after `i` where `"-"` occurs.
pub open spec fn find_sep(s: Seq<char>, i: int) -> Option<int>
    decreases s.len() - i,
{
    if i < 0 || i + 3 > s.len() {
        None
    } else if s[i] == '"' && s[i + 1] == '-' && s[i + 2] == '"' {
        Some(i)
    } else {
        find_sep(s, i + 1)
    }
}

/// Last index before `j` that holds `-`.
pub open spec fn rfind_dash(s: Seq<char>, j: int) -> Option<int>
    decreases j,
{
    if j <= 0 || j > s.len() {
        None
    } else if s[j - 1] == '-' {
        Some(j - 1)
    } else {
        rfind_dash(s, j - 1)
    }
}

/// A pin reference written `COMP-PIN`, `"COMP"-"PIN"` or `"COMP-PIN"`.
pub open spec fn pin_ref_of(token: Seq<char>) -> PinRefView {
    let st = trim_quotes(token);
    match find_sep(st, 0) {
        Some(k) => PinRefView { component: trim_quotes(st.take(k)), pin: trim_quotes(st.skip(k + 3)) },
        None => match rfind_dash(st, st.len() as int) {
            Some(p) => PinRefView { component: st.take(p), pin: st.skip(p + 1) },
            None => PinRefView { component: st, pin: Seq::empty() },
        },
    }
}

proof fn lemma_lead_end(s: Seq<char>, i: int)
    requires
        0 <= i <= s.len(),
    ensures
        i <= lead_end(s, i) <= s.len(),
        lead_end(s, i) < s.len() ==> s[lead_end(s, i)] != '"',
    decreases s.len() - i,
{
    if i < s.len() && s[i] == '"' {
        lemma_lead_end(s, i + 1);
    }
}

proof fn lemma_trail_start(s: Seq<char>, j: int, a: int)
    requires
        0 <= a < j <= s.len(),
        s[a] != '"',
    ensures
        a < trail_start(s, j) <= j,
    decreases j,
{
    if s[j - 1] == '"' {
        lemma_trail_start(s, j - 1, a);
    }
}

fn trim_quotes_exec(s: &Vec<char>, from: usize, to: usize) -> (r: Vec<char>)
    requires
        from <= to <= s.len(),
    ensures
        r@ == trim_quotes(s@.subrange(from as int, to as int)),
{
    let ghost t = s@.subrange(from as int, to as int);
    let mut a = from;
    while a < to && s[a] == '"'
        invariant
            from <= a <= to <= s.len(),
            t == s@.subrange(from as int, to as int),
            lead_end(t, 0) == lead_end(t, a - from),
        decreases to - a,
    {
        a = a + 1;
    }
    proof {
        lemma_lead_end(t, a - from);
        if a < to {
            assert(t[a - from] == s@[a as int]);
        }
    }
    let mut r: Vec<char> = Vec::new();
    if a >= to {
        assert(r@ =~= trim_quotes(t));
        return r;
    }
    let mut b = to;
    while b > a && s[b - 1] == '"'
        invariant
            from <= a < b <= to <= s.len(),
            t == s@.subrange(from as int, to as int),
            trail_start(t, t.len() as int) == trail_start(t, b - from),
            s@[a as int] != '"',
        decreases b,
    {
        b = b - 1;
    }
    proof {
        assert(t[a - from] == s@[a as int]);
        if b > a {
            assert(t[b - 1 - from] == s@[b - 1]);
        }
        assert(trail_start(t, b - from) == b - from);
        assert(t.subrange(a - from, b - from) =~= s@.subrange(a as int, b as int));
    }
    push_range(&mut r, s, a, b);
    assert(r@ =~= s@.subrange(a as int, b as int));
    r
}

/// Reads a pin reference: `COMP-PIN` splits at the last `-`, `"COMP"-"PIN"`
/// at the `"-"`, and surrounding quotes are dropped.
pub fn parse_pin_ref(token: &str) -> (r: PinRef)
    ensures
        r@ == pin_ref_of(token@),
{
    let tv = chars_of(token);
    let st = trim_quotes_exec(&tv, 0, tv.len());
    assert(tv@.subrange(0, tv@.len() as int) =~= tv@);
    // `"-"` separator
    let mut i: usize = 0;
    while i < st.len() && st.len() - i >= 3
        invariant
            st@ == trim_quotes(token@),
            find_sep(st@, 0) == find_sep(st@, i as int),
        decreases st.len() - i,
    {
        if st[i] == '"' && st[i + 1] == '-' && st[i + 2] == '"' {
            let comp = trim_quotes_exec(&st, 0, i);
            let pin = trim_quotes_exec(&st, i + 3, st.len());
            proof {
                assert(st@.take(i as int) =~= st@.subrange(0, i as int));
                assert(st@.skip(i + 3) =~= st@.subrange(i + 3, st@.len() as int));
            }
            return PinRef { component: string_from_chars(comp), pin: string_from_chars(pin) };
        }
        i = i + 1;
    }
    assert(find_sep(st@, i as int) is None);
    // last `-`
    let mut j: usize = st.len();
    while j > 0
        invariant
            st@ == trim_quotes(token@),
            find_sep(st@, 0) is None,
            j <= st.len(),
            rfind_dash(st@, st@.len() as int) == rfind_dash(st@, j as int),
        decreases j,
    {
        if st[j - 1] == '-' {
            let mut comp: Vec<char> = Vec::new();
            push_range(&mut comp, &st, 0, j - 1);
            let mut pin: Vec<char> = Vec::new();
            push_range(&mut pin, &st, j, st.len());
            proof {
                assert(comp@ =~= st@.take(j - 1));
                assert(pin@ =~= st@.skip(j as int));
            }
            return PinRef { component: string_from_chars(comp), pin: string_from_chars(pin) };
        }
        j = j - 1;
    }
    let empty: Vec<char> = Vec::new();
    PinRef { component: string_from_chars(st), pin: string_from_chars(empty) }
}

// ─── rules ───────────────────────────────────────────────────────────────────

pub open spec fn default_rule() -> DesignRule {
    DesignRule { trace_width: 250, clearance: 200 }
}

pub open spec fn rule_step(r: DesignRule, item: SexpView) -> DesignRule {
    if has_name(item, "width"@) && items_of(item).len() > 1 {
        DesignRule { trace_width: num(items_of(item)[1]), ..r }
    } else if has_name(item, "clearance"@) && items_of(item).len() > 1 {
        DesignRule { clearance: num(items_of(item)[1]), ..r }
    } else {
        r
    }
}

/// The rule after reading `items[1..n]`.
pub open spec fn rule_fold(items: Seq<SexpView>, n: int) -> DesignRule
    decreases n,
{
    if n <= 1 {
        default_rule()
    } else {
        rule_step(rule_fold(items, n - 1), items[n - 1])
    }
}

/// A `(rule (width W) (clearance C))` form; 250 and 200 where it is silent.
pub open spec fn rule_of(node: SexpView) -> DesignRule {
    match children_of(node) {
        Some(items) => rule_fold(items, items.len() as int),
        None => default_rule(),
    }
}

fn parse_rule(node: &Sexp) -> (r: DesignRule)
    ensures
        r == rule_of(node@),
{
    let mut rule = DesignRule { trace_width: 250, clearance: 200 };
    let list = match node.as_list() {
        Some(l) => l,
        None => return rule,
    };
    let ghost items = sexps_view(list@);
    proof {
        lemma_sexps_view(list@);
    }
    let mut i: usize = 1;
    while i < list.len()
        invariant
            1 <= i,
            items == sexps_view(list@),
            items.len() == list@.len(),
            forall|k: int| 0 <= k < items.len() ==> #[trigger] items[k] == list@[k]@,
            i <= list.len() || i == 1,
            rule == rule_fold(items, i as int),
        decreases list.len() - i,
    {
        let item = &list[i];
        if is_named(item, "width") {
            if let Some(sub) = item.as_list() {
                proof {
                    lemma_sexps_view(sub@);
                }
                if sub.len() > 1 {
                    rule.trace_width = num_exec(&sub[1]);
                }
            }
        } else if is_named(item, "clearance") {
            if let Some(sub) = item.as_list() {
                proof {
                    lemma_sexps_view(sub@);
                }
                if sub.len() > 1 {
                    rule.clearance = num_exec(&sub[1]);
                }
            }
        }
        i = i + 1;
    }
    proof {
        assert(children_of(node@) == Some(items));
        if list.len() == 0 {
            assert(rule_fold(items, 0) == default_rule());
            assert(rule_fold(items, 1) == default_rule());
        } else {
            assert(i == list.len());
        }
        assert(rule == rule_fold(items, items.len() as int));
        assert(rule_of(node@) == rule_fold(items, items.len() as int));
    }
    rule
}

// ─── boundary ─────────────────────────────────────────────────────────────────

pub open spec fn min_i64(a: i64, b: i64) -> i64 {
    if a <= b {
        a
    } else {
        b
    }
}

pub open spec fn max_i64(a: i64, b: i64) -> i64 {
    if a >= b {
        a
    } else {
        b
    }
}

/// The least of a non-empty sequence (zero for an empty one).
pub open spec fn seq_min(v: Seq<i64>) -> i64
    decreases v.len(),
{
    if v.len() == 0 {
        0
    } else if v.len() == 1 {
        v[0]
    } else {
        min_i64(seq_min(v.drop_last()), v.last())
    }
}

/// The greatest of a non-empty sequence (zero for an empty one).
pub open spec fn seq_max(v: Seq<i64>) -> i64
    decreases v.len(),
{
    if v.len() == 0 {
        0
    } else if v.len() == 1 {
        v[0]
    } else {
        max_i64(seq_max(v.drop_last()), v.last())
    }
}

pub open spec fn xs(pts: Seq<Point>) -> Seq<i64> {
    pts.map_values(|p: Point| p.x)
}

pub open spec fn ys(pts: Seq<Point>) -> Seq<i64> {
    pts.map_values(|p: Point| p.y)
}

pub open spec fn default_boundary_view() -> BoundaryView {
    BoundaryView {
        points: seq![
            Point { x: 0, y: 0 },
            Point { x: 100_000, y: 0 },
            Point { x: 100_000, y: 100_000 },
            Point { x: 0, y: 100_000 },
        ],
        min_x: 0,
        min_y: 0,
        max_x: 100_000,
        max_y: 100_000,
    }
}

/// The boundary of a `(rect LAYER X1 Y1 X2 Y2)` form.
pub open spec fn rect_boundary(items: Seq<SexpView>) -> BoundaryView {
    let x1 = num(items[2]);
    let y1 = num(items[3]);
    let x2 = num(items[4]);
    let y2 = num(items[5]);
    BoundaryView {
        points: seq![
            Point { x: x1, y: y1 },
            Point { x: x2, y: y1 },
            Point { x: x2, y: y2 },
            Point { x: x1, y: y2 },
        ],
        min_x: min_i64(x1, x2),
        min_y: min_i64(y1, y2),
        max_x: max_i64(x1, x2),
        max_y: max_i64(y1, y2),
    }
}

/// The boundary through the given points, with their bounding box.
pub open spec fn points_boundary(pts: Seq<Point>) -> BoundaryView {
    BoundaryView {
        points: pts,
        min_x: seq_min(xs(pts)),
        min_y: seq_min(ys(pts)),
        max_x: seq_max(xs(pts)),
        max_y: seq_max(ys(pts)),
    }
}

/// The first child of `items[i..]` that gives a boundary: a `rect` with all
/// four coordinates, or a `polygon` or `path` with at least one point.
pub open spec fn boundary_scan(items: Seq<SexpView>, i: int) -> Option<BoundaryView>
    decreases items.len() - i,
{
    if i < 0 || i >= items.len() {
        None
    } else if has_name(items[i], "rect"@) && items_of(items[i]).len() >= 6 {
        Some(rect_boundary(items_of(items[i])))
    } else if (has_name(items[i], "polygon"@) || has_name(items[i], "path"@)) && pairs_from(
        items_of(items[i]),
        3,
        true,
    ).len() > 0 {
        Some(points_boundary(pairs_from(items_of(items[i]), 3, true)))
    } else {
        boundary_scan(items, i + 1)
    }
}

/// A `(boundary ...)` form.
pub open spec fn boundary_of(node: SexpView) -> BoundaryView {
    match children_of(node) {
        None => default_boundary_view(),
        Some(items) => match boundary_scan(items, 1) {
            Some(b) => b,
            None => match find_child(node, "rect"@) {
                Some(r) => if items_of(r).len() >= 6 {
                    rect_boundary(items_of(r))
                } else {
                    default_boundary_view()
                },
                None => default_boundary_view(),
            },
        },
    }
}

/// Every value of a non-empty sequence lies between its least and its
/// greatest.
proof fn lemma_seq_bounds(v: Seq<i64>)
    requires
        v.len() >= 1,
    ensures
        seq_min(v) <= seq_max(v),
        forall|k: int| 0 <= k < v.len() ==> seq_min(v) <= #[trigger] v[k] <= seq_max(v),
    decreases v.len(),
{
    if v.len() > 1 {
        lemma_seq_bounds(v.drop_last());
        assert forall|k: int| 0 <= k < v.len() implies seq_min(v) <= #[trigger] v[k] <= seq_max(v) by {
            if k < v.len() - 1 {
                assert(v[k] == v.drop_last()[k]);
            }
        }
    }
}

/// A boundary holds a box in order, and every point of its outline lies in
/// that box: the corners of a rectangle, the points of a polygon or path,
/// or the default outline.
pub open spec fn box_holds_outline(b: BoundaryView) -> bool {
    &&& b.min_x <= b.max_x
    &&& b.min_y <= b.max_y
    &&& forall|k: int|
        0 <= k < b.points.len() ==> b.min_x <= (#[trigger] b.points[k]).x <= b.max_x && b.min_y <= b.points[k].y
            <= b.max_y
}

proof fn lemma_points_box(pts: Seq<Point>)
    requires
        pts.len() >= 1,
    ensures
        box_holds_outline(points_boundary(pts)),
{
    lemma_seq_bounds(xs(pts));
    lemma_seq_bounds(ys(pts));
    assert forall|k: int| 0 <= k < pts.len() implies seq_min(xs(pts)) <= (#[trigger] pts[k]).x <= seq_max(xs(pts))
        && seq_min(ys(pts)) <= pts[k].y <= seq_max(ys(pts)) by {
        assert(xs(pts)[k] == pts[k].x);
        assert(ys(pts)[k] == pts[k].y);
    }
}

proof fn lemma_scan_box(items: Seq<SexpView>, i: int)
    ensures
        boundary_scan(items, i) matches Some(b) ==> box_holds_outline(b),
    decreases items.len() - i,
{
    if 0 <= i < items.len() {
        if has_name(items[i], "rect"@) && items_of(items[i]).len() >= 6 {
        } else if (has_name(items[i], "polygon"@) || has_name(items[i], "path"@)) && pairs_from(
            items_of(items[i]),
            3,
            true,
        ).len() > 0 {
            lemma_points_box(pairs_from(items_of(items[i]), 3, true));
        } else {
            lemma_scan_box(items, i + 1);
        }
    }
}

/// Whatever a `(boundary ...)` form holds, the boundary read from it has
/// its least corner below and left of its greatest, and its outline inside
/// that box.
pub proof fn lemma_boundary_box(node: SexpView)
    ensures
        box_holds_outline(boundary_of(node)),
{
    if let Some(items) = children_of(node) {
        lemma_scan_box(items, 1);
    }
}

fn default_boundary() -> (b: Boundary)
    ensures
        b@ == default_boundary_view(),
{
    let mut points: Vec<Point> = Vec::new();
    points.push(Point { x: 0, y: 0 });
    points.push(Point { x: 100_000, y: 0 });
    points.push(Point { x: 100_000, y: 100_000 });
    points.push(Point { x: 0, y: 100_000 });
    let b = Boundary { points, min_x: 0, min_y: 0, max_x: 100_000, max_y: 100_000 };
    assert(b@.points =~= default_boundary_view().points);
    b
}

fn rect_boundary_exec(items: &[Sexp]) -> (b: Boundary)
    requires
        items@.len() >= 6,
    ensures
        b@ == rect_boundary(sexps_view(items@)),
{
    proof {
        lemma_sexps_view(items@);
    }
    let x1 = num_exec(&items[2]);
    let y1 = num_exec(&items[3]);
    let x2 = num_exec(&items[4]);
    let y2 = num_exec(&items[5]);
    let mut points: Vec<Point> = Vec::new();
    points.push(Point { x: x1, y: y1 });
    points.push(Point { x: x2, y: y1 });
    points.push(Point { x: x2, y: y2 });
    points.push(Point { x: x1, y: y2 });
    let b = Boundary {
        points,
        min_x: if x1 <= x2 {
            x1
        } else {
            x2
        },
        min_y: if y1 <= y2 {
            y1
        } else {
            y2
        },
        max_x: if x1 <= x2 {
            x2
        } else {
            x1
        },
        max_y: if y1 <= y2 {
            y2
        } else {
            y1
        },
    };
    assert(b@.points =~= rect_boundary(sexps_view(items@)).points);
    b
}

fn points_boundary_exec(points: Vec<Point>) -> (b: Boundary)
    requires
        points@.len() > 0,
    ensures
        b@ == points_boundary(points@),
{
    let mut min_x = points[0].x;
    let mut min_y = points[0].y;
    let mut max_x = points[0].x;
    let mut max_y = points[0].y;
    let mut i: usize = 1;
    while i < points.len()
        invariant
            1 <= i <= points.len(),
            min_x == seq_min(xs(points@.take(i as int))),
            min_y == seq_min(ys(points@.take(i as int))),
            max_x == seq_max(xs(points@.take(i as int))),
            max_y == seq_max(ys(points@.take(i as int))),
        decreases points.len() - i,
    {
        let p = points[i];
        proof {
            let t = points@.take(i + 1);
            assert(xs(t).drop_last() =~= xs(points@.take(i as int)));
            assert(ys(t).drop_last() =~= ys(points@.take(i as int)));
        }
        if p.x < min_x {
            min_x = p.x;
        }
        if p.y < min_y {
            min_y = p.y;
        }
        if p.x > max_x {
            max_x = p.x;
        }
        if p.y > max_y {
            max_y = p.y;
        }
        i = i + 1;
    }
    assert(points@.take(points.len() as int) =~= points@);
    Boundary { points, min_x, min_y, max_x, max_y }
}

proof fn lemma_boundary_scan_rect(items: Seq<SexpView>, i: int)
    requires
        0 <= i < items.len(),
        has_name(items[i], "rect"@),
        items_of(items[i]).len() >= 6,
    ensures
        boundary_scan(items, i) == Some(rect_boundary(items_of(items[i]))),
{
}

proof fn lemma_boundary_scan_points(items: Seq<SexpView>, i: int)
    requires
        0 <= i < items.len(),
        !has_name(items[i], "rect"@),
        has_name(items[i], "polygon"@) || has_name(items[i], "path"@),
        pairs_from(items_of(items[i]), 3, true).len() > 0,
    ensures
        boundary_scan(items, i) == Some(points_boundary(pairs_from(items_of(items[i]), 3, true))),
{
}

proof fn lemma_boundary_scan_skip(items: Seq<SexpView>, i: int)
    requires
        0 <= i < items.len(),
        !(has_name(items[i], "rect"@) && items_of(items[i]).len() >= 6),
        !((has_name(items[i], "polygon"@) || has_name(items[i], "path"@)) && pairs_from(
            items_of(items[i]),
            3,
            true,
        ).len() > 0),
    ensures
        boundary_scan(items, i) == boundary_scan(items, i + 1),
{
}

fn parse_boundary(node: &Sexp) -> (b: Boundary)
    ensures
        b@ == boundary_of(node@),
{
    let list = match node.as_list() {
        Some(l) => l,
        None => return default_boundary(),
    };
    let ghost items = sexps_view(list@);
    proof {
        lemma_sexps_view(list@);
    }
    let mut i: usize = 1;
    while i < list.len()
        invariant
            1 <= i,
            items == sexps_view(list@),
            items.len() == list@.len(),
            forall|k: int| 0 <= k < items.len() ==> #[trigger] items[k] == list@[k]@,
            boundary_scan(items, 1) == boundary_scan(items, i as int),
            children_of(node@) == Some(items),
        decreases list.len() - i,
    {
        let item = &list[i];
        let ghost iv = items[i as int];
        assert(item@ == iv);
        if is_named(item, "rect") {
            if let Some(sub) = item.as_list() {
                proof {
                    lemma_sexps_view(sub@);
                }
                if sub.len() >= 6 {
                    proof {
                        lemma_boundary_scan_rect(items, i as int);
                    }
                    return rect_boundary_exec(sub);
                }
                proof {
                    reveal_strlit("rect");
                    reveal_strlit("polygon");
                    reveal_strlit("path");
                    assert("rect"@.len() == 4);
                    assert("polygon"@.len() == 7);
                    assert("path"@[0] == 'p');
                    assert("rect"@[0] == 'r');
                    assert(!has_name(iv, "polygon"@) && !has_name(iv, "path"@));
                    lemma_boundary_scan_skip(items, i as int);
                }
            }
        } else if is_named(item, "polygon") || is_named(item, "path") {
            if let Some(sub) = item.as_list() {
                let points = pairs_from_exec(sub, 3, true);
                if points.len() > 0 {
                    proof {
                        lemma_boundary_scan_points(items, i as int);
                    }
                    return points_boundary_exec(points);
                }
                proof {
                    lemma_boundary_scan_skip(items, i as int);
                }
            }
        } else {
            proof {
                lemma_boundary_scan_skip(items, i as int);
            }
        }
        i = i + 1;
    }
    assert(boundary_scan(items, i as int) is None);
    if let Some(rect) = node.find("rect") {
        if let Some(sub) = rect.as_list() {
            proof {
                lemma_sexps_view(sub@);
            }
            if sub.len() >= 6 {
                return rect_boundary_exec(sub);
            }
        }
    }
    default_boundary()
}

// ─── structure ────────────────────────────────────────────────────────────────

/// Layers, boundary and rule of a `(structure ...)` form.
pub struct StructureView {
    pub layers: Seq<LayerView>,
    pub boundary: BoundaryView,
    pub rules: DesignRule,
}

pub open spec fn layer_type_of(item: SexpView) -> Seq<char> {
    match find_child(item, "type"@) {
        Some(t) => atom_or(items_of(t), 1, "signal"@),
        None => "signal"@,
    }
}

pub open spec fn structure_step(acc: StructureView, item: SexpView) -> StructureView {
    if has_name(item, "layer"@) {
        StructureView {
            layers: acc.layers.push(
                LayerView {
                    name: atom_or(items_of(item), 1, ""@),
                    layer_type: layer_type_of(item),
                    index: acc.layers.len() as usize,
                },
            ),
            ..acc
        }
    } else if has_name(item, "boundary"@) {
        StructureView { boundary: boundary_of(item), ..acc }
    } else if has_name(item, "rule"@) {
        StructureView { rules: rule_of(item), ..acc }
    } else {
        acc
    }
}

pub open spec fn structure_start() -> StructureView {
    StructureView {
        layers: Seq::empty(),
        boundary: BoundaryView {
            points: Seq::empty(),
            min_x: 0,
            min_y: 0,
            max_x: 100_000,
            max_y: 100_000,
        },
        rules: default_rule(),
    }
}

/// The structure after reading `items[1..n]`.
pub open spec fn structure_fold(items: Seq<SexpView>, n: int) -> StructureView
    decreases n,
{
    if n <= 1 {
        structure_start()
    } else {
        structure_step(structure_fold(items, n - 1), items[n - 1])
    }
}

pub open spec fn default_layers() -> Seq<LayerView> {
    seq![
        LayerView { name: "F.Cu"@, layer_type: "signal"@, index: 0 },
        LayerView { name: "B.Cu"@, layer_type: "signal"@, index: 1 },
    ]
}

/// What the `(structure ...)` form gives, or the defaults without one: the
/// layers read (two signal layers `F.Cu`, `B.Cu` when it names none), the
/// last boundary and the last rule.
pub open spec fn structure_of(node: Option<SexpView>) -> StructureView {
    match node {
        None => structure_start(),
        Some(n) => match children_of(n) {
            None => structure_start(),
            Some(items) => {
                let f = structure_fold(items, items.len() as int);
                if f.layers.len() == 0 {
                    StructureView { layers: default_layers(), ..f }
                } else {
                    f
                }
            },
        },
    }
}

pub open spec fn layers_view(v: Seq<Layer>) -> Seq<LayerView> {
    v.map_values(|l: Layer| l@)
}

fn parse_structure(node: Option<&Sexp>) -> (r: (Vec<Layer>, Boundary, DesignRule))
    ensures
        layers_view(r.0@) == structure_of(opt_view(node)).layers,
        r.1@ == structure_of(opt_view(node)).boundary,
        r.2 == structure_of(opt_view(node)).rules,
{
    let mut layers: Vec<Layer> = Vec::new();
    let mut boundary = Boundary {
        points: Vec::new(),
        min_x: 0,
        min_y: 0,
        max_x: 100_000,
        max_y: 100_000,
    };
    let mut rules = DesignRule { trace_width: 250, clearance: 200 };
    proof {
        assert(layers_view(layers@) =~= Seq::<LayerView>::empty());
        assert(boundary@ == structure_start().boundary);
    }
    let node = match node {
        Some(n) => n,
        None => return (layers, boundary, rules),
    };
    let list = match node.as_list() {
        Some(l) => l,
        None => return (layers, boundary, rules),
    };
    let ghost items = sexps_view(list@);
    proof {
        lemma_sexps_view(list@);
    }
    let mut i: usize = 1;
    while i < list.len()
        invariant
            1 <= i,
            i <= list.len() || i == 1,
            items == sexps_view(list@),
            items.len() == list@.len(),
            forall|k: int| 0 <= k < items.len() ==> #[trigger] items[k] == list@[k]@,
            layers_view(layers@) == structure_fold(items, i as int).layers,
            layers@.len() <= i,
            boundary@ == structure_fold(items, i as int).boundary,
            rules == structure_fold(items, i as int).rules,
        decreases list.len() - i,
    {
        let item = &list[i];
        if is_named(item, "layer") {
            let name = match item.as_list() {
                Some(sub) => atom_or_exec(sub, 1, ""),
                None => "".to_owned(),
            };
            let ltype = match item.find("type") {
                Some(tnode) => match tnode.as_list() {
                    Some(sub) => atom_or_exec(sub, 1, "signal"),
                    None => "signal".to_owned(),
                },
                None => "signal".to_owned(),
            };
            let layer = Layer { name, layer_type: ltype, index: layers.len() };
            proof {
                assert(layers_view(layers@.push(layer)) =~= layers_view(layers@).push(layer@));
            }
            layers.push(layer);
        } else if is_named(item, "boundary") {
            boundary = parse_boundary(item);
        } else if is_named(item, "rule") {
            rules = parse_rule(item);
        }
        i = i + 1;
    }
    proof {
        if list.len() == 0 {
            assert(structure_fold(items, 0) == structure_fold(items, 1));
        }
    }
    if layers.len() == 0 {
        layers.push(Layer { name: "F.Cu".to_owned(), layer_type: "signal".to_owned(), index: 0 });
        layers.push(Layer { name: "B.Cu".to_owned(), layer_type: "signal".to_owned(), index: 1 });
        assert(layers_view(layers@) =~= default_layers());
    }
    (layers, boundary, rules)
}

// ─── library ──────────────────────────────────────────────────────────────────

/// The pin of an image given by `(pin PADSTACK NUMBER X Y)` or
/// `(pin PADSTACK (rotate ANGLE) NUMBER X Y)`; none with fewer than four items.
pub open spec fn image_pin_of(item: SexpView) -> Option<ImagePinView> {
    let it = items_of(item);
    if it.len() < 4 {
        None
    } else {
        let rot = find_child(item, "rotate"@);
        let offset: int = if rot is Some {
            3
        } else {
            2
        };
        Some(
            ImagePinView {
                padstack_name: atom_or(it, 1, ""@),
                pin_number: atom_or(it, offset, ""@),
                x: num_or(it, offset + 1, 0),
                y: num_or(it, offset + 2, 0),
                rotation: match rot {
                    Some(r) => angle_at(items_of(r), 1),
                    None => ""@,
                },
            },
        )
    }
}

/// The outline path of an `(outline (path LAYER WIDTH X Y ...))` form, when it has a point.
pub open spec fn outline_of(item: SexpView) -> Option<Seq<Point>> {
    match find_child(item, "path"@) {
        Some(p) => if pairs_from(items_of(p), 3, false).len() > 0 {
            Some(pairs_from(items_of(p), 3, false))
        } else {
            None
        },
        None => None,
    }
}

pub open spec fn image_step(acc: ImageView, item: SexpView) -> ImageView {
    if has_name(item, "outline"@) {
        match outline_of(item) {
            Some(o) => ImageView { outlines: acc.outlines.push(o), ..acc },
            None => acc,
        }
    } else if has_name(item, "pin"@) {
        match image_pin_of(item) {
            Some(p) => ImageView { pins: acc.pins.push(p), ..acc },
            None => acc,
        }
    } else {
        acc
    }
}

/// The image after reading `items[2..n]`.
pub open spec fn image_fold(items: Seq<SexpView>, n: int) -> ImageView
    decreases n,
{
    if n <= 2 {
        ImageView { name: atom_or(items, 1, ""@), outlines: Seq::empty(), pins: Seq::empty() }
    } else {
        image_step(image_fold(items, n - 1), items[n - 1])
    }
}

/// An `(image NAME ...)` form; none without a name.
pub open spec fn image_of(node: SexpView) -> Option<ImageView> {
    match children_of(node) {
        None => None,
        Some(items) => if atom_at(items, 1) is Some {
            Some(image_fold(items, items.len() as int))
        } else {
            None
        },
    }
}

/// A pad shape: `(circle LAYER D)`, `(rect LAYER X1 Y1 X2 Y2)` (or
/// `rectangle`), `(oval LAYER W H)` or `(path LAYER W X Y ...)`.
pub open spec fn pad_shape_of(node: SexpView) -> Option<PadShapeView> {
    match children_of(node) {
        None => None,
        Some(l) => match atom_at(l, 0) {
            None => None,
            Some(kind) => match atom_at(l, 1) {
                None => None,
                Some(layer) => if kind == "circle"@ {
                    Some(PadShapeView::Circle { layer, diameter: num_or(l, 2, 100) })
                } else if kind == "rect"@ || kind == "rectangle"@ {
                    Some(
                        PadShapeView::Rect {
                            layer,
                            x1: num_or(l, 2, 0),
                            y1: num_or(l, 3, 0),
                            x2: num_or(l, 4, 0),
                            y2: num_or(l, 5, 0),
                        },
                    )
                } else if kind == "oval"@ {
                    Some(
                        PadShapeView::Oval {
                            layer,
                            width: num_or(l, 2, 100),
                            height: num_or(l, 3, 100),
                        },
                    )
                } else if kind == "path"@ {
                    Some(
                        PadShapeView::Path {
                            layer,
                            width: num_or(l, 2, 0),
                            points: pairs_from(l, 3, false),
                        },
                    )
                } else {
                    None
                },
            },
        },
    }
}

pub open spec fn padstack_step(acc: PadstackView, item: SexpView) -> PadstackView {
    if has_name(item, "shape"@) {
        if items_of(item).len() > 1 {
            match pad_shape_of(items_of(item)[1]) {
                Some(s) => PadstackView { shapes: acc.shapes.push(s), ..acc },
                None => acc,
            }
        } else {
            acc
        }
    } else if has_name(item, "attach"@) {
        PadstackView { attach: atom_at(items_of(item), 1) == Some("on"@), ..acc }
    } else {
        acc
    }
}

/// The padstack after reading `items[2..n]`.
pub open spec fn padstack_fold(items: Seq<SexpView>, n: int) -> PadstackView
    decreases n,
{
    if n <= 2 {
        PadstackView { name: atom_or(items, 1, ""@), shapes: Seq::empty(), attach: false }
    } else {
        padstack_step(padstack_fold(items, n - 1), items[n - 1])
    }
}

/// A `(padstack NAME ...)` form; none without a name.
pub open spec fn padstack_of(node: SexpView) -> Option<PadstackView> {
    match children_of(node) {
        None => None,
        Some(items) => if atom_at(items, 1) is Some {
            Some(padstack_fold(items, items.len() as int))
        } else {
            None
        },
    }
}

/// Index of the first image named `name`.
pub open spec fn image_index(lib: Seq<ImageView>, name: Seq<char>) -> Option<int>
    decreases lib.len(),
{
    if lib.len() == 0 {
        None
    } else {
        match image_index(lib.drop_last(), name) {
            Some(k) => Some(k),
            None => if lib.last().name == name {
                Some(lib.len() - 1)
            } else {
                None
            },
        }
    }
}

/// Index of the first padstack named `name`.
pub open spec fn padstack_index(lib: Seq<PadstackView>, name: Seq<char>) -> Option<int>
    decreases lib.len(),
{
    if lib.len() == 0 {
        None
    } else {
        match padstack_index(lib.drop_last(), name) {
            Some(k) => Some(k),
            None => if lib.last().name == name {
                Some(lib.len() - 1)
            } else {
                None
            },
        }
    }
}

/// Adds an image to a library, replacing the one with its name.
pub open spec fn insert_image(lib: Seq<ImageView>, img: ImageView) -> Seq<ImageView> {
    match image_index(lib, img.name) {
        Some(k) => lib.update(k, img),
        None => lib.push(img),
    }
}

/// Adds a padstack to a library, replacing the one with its name.
pub open spec fn insert_padstack(lib: Seq<PadstackView>, ps: PadstackView) -> Seq<PadstackView> {
    match padstack_index(lib, ps.name) {
        Some(k) => lib.update(k, ps),
        None => lib.push(ps),
    }
}

pub struct LibraryView {
    pub images: Seq<ImageView>,
    pub padstacks: Seq<PadstackView>,
}

pub open spec fn library_step(acc: LibraryView, item: SexpView) -> LibraryView {
    if has_name(item, "image"@) {
        match image_of(item) {
            Some(img) => LibraryView { images: insert_image(acc.images, img), ..acc },
            None => acc,
        }
    } else if has_name(item, "padstack"@) {
        match padstack_of(item) {
            Some(ps) => LibraryView { padstacks: insert_padstack(acc.padstacks, ps), ..acc },
            None => acc,
        }
    } else {
        acc
    }
}

/// The library after reading `items[1..n]`.
pub open spec fn library_fold(items: Seq<SexpView>, n: int) -> LibraryView
    decreases n,
{
    if n <= 1 {
        LibraryView { images: Seq::empty(), padstacks: Seq::empty() }
    } else {
        library_step(library_fold(items, n - 1), items[n - 1])
    }
}

/// The images and padstacks of a `(library ...)` form.
pub open spec fn library_of(node: Option<SexpView>) -> LibraryView {
    match node {
        Some(n) => match children_of(n) {
            Some(items) => library_fold(items, items.len() as int),
            None => LibraryView { images: Seq::empty(), padstacks: Seq::empty() },
        },
        None => LibraryView { images: Seq::empty(), padstacks: Seq::empty() },
    }
}

pub open spec fn points_view(v: Seq<Vec<Point>>) -> Seq<Seq<Point>> {
    v.map_values(|o: Vec<Point>| o@)
}

pub open spec fn pins_view(v: Seq<ImagePin>) -> Seq<ImagePinView> {
    v.map_values(|p: ImagePin| p@)
}

pub open spec fn shapes_view(v: Seq<PadShape>) -> Seq<PadShapeView> {
    v.map_values(|s: PadShape| s@)
}

pub open spec fn images_view(v: Seq<Image>) -> Seq<ImageView> {
    v.map_values(|i: Image| i@)
}

pub open spec fn padstacks_view(v: Seq<Padstack>) -> Seq<PadstackView> {
    v.map_values(|p: Padstack| p@)
}

fn parse_image_pin(item: &Sexp) -> (r: Option<ImagePin>)
    ensures
        match image_pin_of(item@) {
            Some(p) => r matches Some(q) && q@ == p,
            None => r is None,
        },
{
    let it = match item.as_list() {
        Some(l) => l,
        None => {
            return None;
        },
    };
    proof {
        lemma_sexps_view(it@);
    }
    if it.len() < 4 {
        return None;
    }
    let padstack_name = atom_or_exec(it, 1, "");
    let mut rotation = "".to_owned();
    let mut offset: usize = 2;
    if let Some(rotate) = item.find("rotate") {
        rotation = match rotate.as_list() {
            Some(rl) => angle_at_exec(rl, 1),
            None => "".to_owned(),
        };
        offset = 3;
    }
    let pin_number = atom_or_exec(it, offset, "");
    let x = num_or_exec(it, offset + 1, 0);
    let y = num_or_exec(it, offset + 2, 0);
    let pin = ImagePin { padstack_name, pin_number, x, y, rotation };
    proof {
        reveal_strlit("");
        let spec_pin = image_pin_of(item@).unwrap();
        assert(pin@.padstack_name == spec_pin.padstack_name);
        assert(pin@.pin_number == spec_pin.pin_number);
        assert(pin@.x == spec_pin.x);
        assert(pin@.rotation == spec_pin.rotation);
    }
    Some(pin)
}

fn parse_outline(item: &Sexp) -> (r: Option<Vec<Point>>)
    ensures
        match outline_of(item@) {
            Some(o) => r matches Some(q) && q@ == o,
            None => r is None,
        },
{
    match item.find("path") {
        Some(path) => match path.as_list() {
            Some(pl) => {
                let pts = pairs_from_exec(pl, 3, false);
                if pts.len() > 0 {
                    Some(pts)
                } else {
                    None
                }
            },
            None => None,
        },
        None => None,
    }
}

fn parse_image(node: &Sexp) -> (r: Option<Image>)
    ensures
        match image_of(node@) {
            Some(img) => r matches Some(q) && q@ == img,
            None => r is None,
        },
{
    let list = match node.as_list() {
        Some(l) => l,
        None => return None,
    };
    let name = match atom_at_exec(list, 1) {
        Some(a) => a.to_owned(),
        None => return None,
    };
    let ghost items = sexps_view(list@);
    proof {
        lemma_sexps_view(list@);
    }
    let mut outlines: Vec<Vec<Point>> = Vec::new();
    let mut pins: Vec<ImagePin> = Vec::new();
    let mut i: usize = 2;
    while i < list.len()
        invariant
            2 <= i,
            i <= list.len() || i == 2,
            items == sexps_view(list@),
            items.len() == list@.len(),
            forall|k: int| 0 <= k < items.len() ==> #[trigger] items[k] == list@[k]@,
            name@ == image_fold(items, i as int).name,
            points_view(outlines@) == image_fold(items, i as int).outlines,
            pins_view(pins@) == image_fold(items, i as int).pins,
        decreases list.len() - i,
    {
        let item = &list[i];
        if is_named(item, "outline") {
            if let Some(o) = parse_outline(item) {
                proof {
                    assert(points_view(outlines@.push(o)) =~= points_view(outlines@).push(o@));
                }
                outlines.push(o);
            }
        } else if is_named(item, "pin") {
            if let Some(p) = parse_image_pin(item) {
                proof {
                    assert(pins_view(pins@.push(p)) =~= pins_view(pins@).push(p@));
                }
                pins.push(p);
            }
        }
        i = i + 1;
    }
    proof {
        if list.len() <= 2 {
            assert(image_fold(items, list.len() as int) == image_fold(items, i as int));
        }
    }
    Some(Image { name, outlines, pins })
}

fn parse_pad_shape(node: &Sexp) -> (r: Option<PadShape>)
    ensures
        match pad_shape_of(node@) {
            Some(s) => r matches Some(q) && q@ == s,
            None => r is None,
        },
{
    let l = match node.as_list() {
        Some(l) => l,
        None => return None,
    };
    let kind = match atom_at_exec(l, 0) {
        Some(k) => k,
        None => return None,
    };
    let layer = match atom_at_exec(l, 1) {
        Some(a) => a.to_owned(),
        None => return None,
    };
    if str_eq(kind, "circle") {
        Some(PadShape::Circle { layer, diameter: num_or_exec(l, 2, 100) })
    } else if str_eq(kind, "rect") || str_eq(kind, "rectangle") {
        Some(
            PadShape::Rect {
                layer,
                x1: num_or_exec(l, 2, 0),
                y1: num_or_exec(l, 3, 0),
                x2: num_or_exec(l, 4, 0),
                y2: num_or_exec(l, 5, 0),
            },
        )
    } else if str_eq(kind, "oval") {
        Some(PadShape::Oval { layer, width: num_or_exec(l, 2, 100), height: num_or_exec(l, 3, 100) })
    } else if str_eq(kind, "path") {
        Some(PadShape::Path { layer, width: num_or_exec(l, 2, 0), points: pairs_from_exec(l, 3, false) })
    } else {
        None
    }
}

fn parse_padstack(node: &Sexp) -> (r: Option<Padstack>)
    ensures
        match padstack_of(node@) {
            Some(ps) => r matches Some(q) && q@ == ps,
            None => r is None,
        },
{
    let list = match node.as_list() {
        Some(l) => l,
        None => return None,
    };
    let name = match atom_at_exec(list, 1) {
        Some(a) => a.to_owned(),
        None => return None,
    };
    let ghost items = sexps_view(list@);
    proof {
        lemma_sexps_view(list@);
    }
    let mut shapes: Vec<PadShape> = Vec::new();
    let mut attach = false;
    let mut i: usize = 2;
    while i < list.len()
        invariant
            2 <= i,
            i <= list.len() || i == 2,
            items == sexps_view(list@),
            items.len() == list@.len(),
            forall|k: int| 0 <= k < items.len() ==> #[trigger] items[k] == list@[k]@,
            name@ == padstack_fold(items, i as int).name,
            shapes_view(shapes@) == padstack_fold(items, i as int).shapes,
            attach == padstack_fold(items, i as int).attach,
        decreases list.len() - i,
    {
        let item = &list[i];
        if is_named(item, "shape") {
            if let Some(sub) = item.as_list() {
                proof {
                    lemma_sexps_view(sub@);
                }
                if sub.len() > 1 {
                    if let Some(s) = parse_pad_shape(&sub[1]) {
                        proof {
                            assert(shapes_view(shapes@.push(s)) =~= shapes_view(shapes@).push(s@));
                        }
                        shapes.push(s);
                    }
                }
            }
        } else if is_named(item, "attach") {
            attach = match item.as_list() {
                Some(sub) => match atom_at_exec(sub, 1) {
                    Some(a) => str_eq(a, "on"),
                    None => false,
                },
                None => false,
            };
        }
        i = i + 1;
    }
    proof {
        if list.len() <= 2 {
            assert(padstack_fold(items, list.len() as int) == padstack_fold(items, i as int));
        }
    }
    Some(Padstack { name, shapes, attach })
}

/// Index of the first image named `name` in a library.
pub fn find_image(lib: &Vec<Image>, name: &str) -> (r: Option<usize>)
    ensures
        match image_index(images_view(lib@), name@) {
            Some(k) => r matches Some(j) && j as int == k,
            None => r is None,
        },
        r matches Some(k) ==> k < lib@.len(),
{
    let mut i: usize = 0;
    while i < lib.len()
        invariant
            i <= lib.len(),
            image_index(images_view(lib@).take(i as int), name@) is None,
        decreases lib.len() - i,
    {
        proof {
            assert(images_view(lib@).take(i + 1).drop_last() =~= images_view(lib@).take(i as int));
        }
        if str_eq(lib[i].name.as_str(), name) {
            proof {
                lemma_index_prefix_image(images_view(lib@), i as int + 1, name@);
            }
            return Some(i);
        }
        i = i + 1;
    }
    assert(images_view(lib@).take(i as int) =~= images_view(lib@));
    None
}

proof fn lemma_index_prefix_image(lib: Seq<ImageView>, n: int, name: Seq<char>)
    requires
        0 < n <= lib.len(),
        image_index(lib.take(n), name) == Some(n - 1),
    ensures
        image_index(lib, name) == Some(n - 1),
    decreases lib.len(),
{
    if n < lib.len() {
        assert(lib.drop_last().take(n) =~= lib.take(n));
        lemma_index_prefix_image(lib.drop_last(), n, name);
    } else {
        assert(lib.take(n) =~= lib);
    }
}

proof fn lemma_index_prefix_padstack(lib: Seq<PadstackView>, n: int, name: Seq<char>)
    requires
        0 < n <= lib.len(),
        padstack_index(lib.take(n), name) == Some(n - 1),
    ensures
        padstack_index(lib, name) == Some(n - 1),
    decreases lib.len(),
{
    if n < lib.len() {
        assert(lib.drop_last().take(n) =~= lib.take(n));
        lemma_index_prefix_padstack(lib.drop_last(), n, name);
    } else {
        assert(lib.take(n) =~= lib);
    }
}

/// Index of the first padstack named `name` in a library.
pub fn find_padstack(lib: &Vec<Padstack>, name: &str) -> (r: Option<usize>)
    ensures
        match padstack_index(padstacks_view(lib@), name@) {
            Some(k) => r matches Some(j) && j as int == k,
            None => r is None,
        },
        r matches Some(k) ==> k < lib@.len(),
{
    let mut i: usize = 0;
    while i < lib.len()
        invariant
            i <= lib.len(),
            padstack_index(padstacks_view(lib@).take(i as int), name@) is None,
        decreases lib.len() - i,
    {
        proof {
            assert(padstacks_view(lib@).take(i + 1).drop_last() =~= padstacks_view(lib@).take(i as int));
        }
        if str_eq(lib[i].name.as_str(), name) {
            proof {
                lemma_index_prefix_padstack(padstacks_view(lib@), i as int + 1, name@);
            }
            return Some(i);
        }
        i = i + 1;
    }
    assert(padstacks_view(lib@).take(i as int) =~= padstacks_view(lib@));
    None
}

fn parse_library(node: Option<&Sexp>) -> (r: (Vec<Image>, Vec<Padstack>))
    ensures
        images_view(r.0@) == library_of(opt_view(node)).images,
        padstacks_view(r.1@) == library_of(opt_view(node)).padstacks,
{
    let mut images: Vec<Image> = Vec::new();
    let mut padstacks: Vec<Padstack> = Vec::new();
    proof {
        assert(images_view(images@) =~= Seq::<ImageView>::empty());
        assert(padstacks_view(padstacks@) =~= Seq::<PadstackView>::empty());
    }
    let node = match node {
        Some(n) => n,
        None => return (images, padstacks),
    };
    let list = match node.as_list() {
        Some(l) => l,
        None => return (images, padstacks),
    };
    let ghost items = sexps_view(list@);
    proof {
        lemma_sexps_view(list@);
    }
    let mut i: usize = 1;
    while i < list.len()
        invariant
            1 <= i,
            i <= list.len() || i == 1,
            items == sexps_view(list@),
            items.len() == list@.len(),
            forall|k: int| 0 <= k < items.len() ==> #[trigger] items[k] == list@[k]@,
            images_view(images@) == library_fold(items, i as int).images,
            padstacks_view(padstacks@) == library_fold(items, i as int).padstacks,
        decreases list.len() - i,
    {
        let item = &list[i];
        let ghost acc = library_fold(items, i as int);
        assert(library_fold(items, i + 1) == library_step(acc, item@));
        if is_named(item, "image") {
            if let Some(img) = parse_image(item) {
                match find_image(&images, img.name.as_str()) {
                    Some(k) => {
                        proof {
                            assert(images_view(images@.update(k as int, img)) =~= images_view(
                                images@,
                            ).update(k as int, img@));
                        }
                        images.set(k, img);
                    },
                    None => {
                        proof {
                            assert(images_view(images@.push(img)) =~= images_view(images@).push(
                                img@,
                            ));
                        }
                        images.push(img);
                    },
                }
            }
        } else if is_named(item, "padstack") {
            if let Some(ps) = parse_padstack(item) {
                match find_padstack(&padstacks, ps.name.as_str()) {
                    Some(k) => {
                        proof {
                            assert(padstacks_view(padstacks@.update(k as int, ps)) =~= padstacks_view(
                                padstacks@,
                            ).update(k as int, ps@));
                        }
                        padstacks.set(k, ps);
                    },
                    None => {
                        proof {
                            assert(padstacks_view(padstacks@.push(ps)) =~= padstacks_view(
                                padstacks@,
                            ).push(ps@));
                        }
                        padstacks.push(ps);
                    },
                }
            }
        }
        i = i + 1;
    }
    proof {
        if list.len() == 0 {
            assert(library_fold(items, 0) == library_fold(items, 1));
        }
    }
    (images, padstacks)
}

// ─── placement ────────────────────────────────────────────────────────────────

/// A `(place REF X Y SIDE ROTATION)` form; none without a reference. The side
/// is the back when it reads `back` in any case.
pub open spec fn place_of(node: SexpView) -> Option<PlaceView> {
    match children_of(node) {
        None => None,
        Some(l) => match atom_at(l, 1) {
            None => None,
            Some(reference) => Some(
                PlaceView {
                    reference,
                    x: num_or(l, 2, 0),
                    y: num_or(l, 3, 0),
                    side: if eq_ignore_case(atom_or(l, 4, "front"@), "back"@) {
                        Side::Back
                    } else {
                        Side::Front
                    },
                    rotation: angle_at(l, 5),
                },
            ),
        },
    }
}

/// The placements among `items[2..n]`.
pub open spec fn places_fold(items: Seq<SexpView>, n: int) -> Seq<PlaceView>
    decreases n,
{
    if n <= 2 {
        Seq::empty()
    } else {
        let acc = places_fold(items, n - 1);
        if has_name(items[n - 1], "place"@) {
            match place_of(items[n - 1]) {
                Some(p) => acc.push(p),
                None => acc,
            }
        } else {
            acc
        }
    }
}

/// A `(component IMAGE (place ...) ...)` form.
pub open spec fn component_of(item: SexpView) -> ComponentView {
    let it = items_of(item);
    ComponentView { image_name: atom_or(it, 1, ""@), places: places_fold(it, it.len() as int) }
}

/// The components among `items[1..n]`.
pub open spec fn placement_fold(items: Seq<SexpView>, n: int) -> Seq<ComponentView>
    decreases n,
{
    if n <= 1 {
        Seq::empty()
    } else if has_name(items[n - 1], "component"@) {
        placement_fold(items, n - 1).push(component_of(items[n - 1]))
    } else {
        placement_fold(items, n - 1)
    }
}

/// The components of a `(placement ...)` form.
pub open spec fn placement_of(node: Option<SexpView>) -> Seq<ComponentView> {
    match node {
        Some(n) => match children_of(n) {
            Some(items) => placement_fold(items, items.len() as int),
            None => Seq::empty(),
        },
        None => Seq::empty(),
    }
}

pub open spec fn places_view(v: Seq<Place>) -> Seq<PlaceView> {
    v.map_values(|p: Place| p@)
}

pub open spec fn components_view(v: Seq<Component>) -> Seq<ComponentView> {
    v.map_values(|c: Component| c@)
}

fn parse_place(node: &Sexp) -> (r: Option<Place>)
    ensures
        match place_of(node@) {
            Some(p) => r matches Some(q) && q@ == p,
            None => r is None,
        },
{
    let l = match node.as_list() {
        Some(l) => l,
        None => return None,
    };
    let reference = match atom_at_exec(l, 1) {
        Some(a) => a.to_owned(),
        None => return None,
    };
    let x = num_or_exec(l, 2, 0);
    let y = num_or_exec(l, 3, 0);
    let side_text = chars_of(
        match atom_at_exec(l, 4) {
            Some(a) => a,
            None => "front",
        },
    );
    let back = eq_ignore_case_at(&side_text, 0, &chars_of("back"));
    assert(side_text@.skip(0) =~= side_text@);
    let side = if back {
        Side::Back
    } else {
        Side::Front
    };
    let rotation = angle_at_exec(l, 5);
    Some(Place { reference, x, y, side, rotation })
}

fn parse_component(item: &Sexp) -> (r: Component)
    ensures
        r@ == component_of(item@),
{
    let mut places: Vec<Place> = Vec::new();
    let list = match item.as_list() {
        Some(l) => l,
        None => {
            proof {
                reveal_strlit("");
            }
            assert(places_view(places@) =~= Seq::<PlaceView>::empty());
            return Component { image_name: "".to_owned(), places };
        },
    };
    let image_name = atom_or_exec(list, 1, "");
    let ghost items = sexps_view(list@);
    proof {
        lemma_sexps_view(list@);
        assert(places_view(places@) =~= Seq::<PlaceView>::empty());
    }
    let mut i: usize = 2;
    while i < list.len()
        invariant
            2 <= i,
            i <= list.len() || i == 2,
            items == sexps_view(list@),
            items.len() == list@.len(),
            forall|k: int| 0 <= k < items.len() ==> #[trigger] items[k] == list@[k]@,
            places_view(places@) == places_fold(items, i as int),
        decreases list.len() - i,
    {
        let child = &list[i];
        if is_named(child, "place") {
            if let Some(p) = parse_place(child) {
                proof {
                    assert(places_view(places@.push(p)) =~= places_view(places@).push(p@));
                }
                places.push(p);
            }
        }
        i = i + 1;
    }
    proof {
        if list.len() <= 2 {
            assert(places_fold(items, list.len() as int) == places_fold(items, i as int));
        }
    }
    Component { image_name, places }
}

fn parse_placement(node: Option<&Sexp>) -> (r: Vec<Component>)
    ensures
        components_view(r@) == placement_of(opt_view(node)),
{
    let mut comps: Vec<Component> = Vec::new();
    assert(components_view(comps@) =~= Seq::<ComponentView>::empty());
    let node = match node {
        Some(n) => n,
        None => return comps,
    };
    let list = match node.as_list() {
        Some(l) => l,
        None => return comps,
    };
    let ghost items = sexps_view(list@);
    proof {
        lemma_sexps_view(list@);
    }
    let mut i: usize = 1;
    while i < list.len()
        invariant
            1 <= i,
            i <= list.len() || i == 1,
            items == sexps_view(list@),
            items.len() == list@.len(),
            forall|k: int| 0 <= k < items.len() ==> #[trigger] items[k] == list@[k]@,
            components_view(comps@) == placement_fold(items, i as int),
        decreases list.len() - i,
    {
        let item = &list[i];
        if is_named(item, "component") {
            let c = parse_component(item);
            proof {
                assert(components_view(comps@.push(c)) =~= components_view(comps@).push(c@));
            }
            comps.push(c);
        }
        i = i + 1;
    }
    proof {
        if list.len() == 0 {
            assert(placement_fold(items, 0) == placement_fold(items, 1));
        }
    }
    comps
}

// ─── network ──────────────────────────────────────────────────────────────────

/// An atom that continues a quoted component name: the reader ends the
/// quoted `"COMP"` at its closing quote, so `"COMP"-"PIN"` reaches a pin
/// list as the atom `COMP` followed by the atom `-"PIN"`.
pub open spec fn continues_ref(a: Seq<char>) -> bool {
    a.len() >= 2 && a[0] == '-' && a[1] == '"'
}

/// The pin references among the atoms of `items[i..]`: each atom is one
/// reference, but an atom followed by one that continues it (see
/// [`continues_ref`]) is read with it as `"COMP"-"PIN"`.
pub open spec fn pins_from(items: Seq<SexpView>, i: int) -> Seq<PinRefView>
    decreases items.len() - i,
{
    if i < 0 || i >= items.len() {
        Seq::empty()
    } else {
        match atom_of(items[i]) {
            Some(tok) => if i + 1 < items.len() && (atom_of(items[i + 1]) matches Some(nx) && continues_ref(nx)) {
                seq![pin_ref_of(seq!['"'] + tok + seq!['"'] + atom_of(items[i + 1])->0)] + pins_from(items, i + 2)
            } else {
                seq![pin_ref_of(tok)] + pins_from(items, i + 1)
            },
            None => pins_from(items, i + 1),
        }
    }
}

/// A `(net NAME (pins REF ...))` form.
pub open spec fn net_of(item: SexpView) -> NetView {
    NetView {
        name: atom_or(items_of(item), 1, ""@),
        pins: match find_child(item, "pins"@) {
            Some(p) => pins_from(items_of(p), 1),
            None => Seq::empty(),
        },
    }
}

/// The nets among `items[1..n]`.
pub open spec fn network_fold(items: Seq<SexpView>, n: int) -> Seq<NetView>
    decreases n,
{
    if n <= 1 {
        Seq::empty()
    } else if has_name(items[n - 1], "net"@) {
        network_fold(items, n - 1).push(net_of(items[n - 1]))
    } else {
        network_fold(items, n - 1)
    }
}

/// The nets of a `(network ...)` form.
pub open spec fn network_of(node: Option<SexpView>) -> Seq<NetView> {
    match node {
        Some(n) => match children_of(n) {
            Some(items) => network_fold(items, items.len() as int),
            None => Seq::empty(),
        },
        None => Seq::empty(),
    }
}

pub open spec fn pin_refs_view(v: Seq<PinRef>) -> Seq<PinRefView> {
    v.map_values(|p: PinRef| p@)
}

pub open spec fn nets_view(v: Seq<Net>) -> Seq<NetView> {
    v.map_values(|n: Net| n@)
}

fn parse_pins(node: &Sexp) -> (r: Vec<PinRef>)
    ensures
        pin_refs_view(r@) == pins_from(items_of(node@), 1),
{
    let mut pins: Vec<PinRef> = Vec::new();
    assert(pin_refs_view(pins@) =~= Seq::<PinRefView>::empty());
    let list = match node.as_list() {
        Some(l) => l,
        None => return pins,
    };
    let ghost items = sexps_view(list@);
    proof {
        lemma_sexps_view(list@);
    }
    let mut i: usize = 1;
    while i < list.len()
        invariant
            1 <= i,
            i <= list.len() + 1,
            items == sexps_view(list@),
            items.len() == list@.len(),
            forall|k: int| 0 <= k < items.len() ==> #[trigger] items[k] == list@[k]@,
            pin_refs_view(pins@) + pins_from(items, i as int) == pins_from(items, 1),
        decreases list.len() + 1 - i,
    {
        let ghost p0 = pin_refs_view(pins@);
        if let Some(tok) = list[i].as_atom() {
            let mut joined = false;
            if i + 1 < list.len() {
                if let Some(nx) = list[i + 1].as_atom() {
                    let nv = chars_of(nx);
                    if nv.len() >= 2 && nv[0] == '-' && nv[1] == '"' {
                        let mut t: Vec<char> = Vec::new();
                        t.push('"');
                        let tv = chars_of(tok);
                        let mut k: usize = 0;
                        while k < tv.len()
                            invariant
                                k <= tv.len(),
                                t@ == seq!['"'] + tv@.take(k as int),
                            decreases tv.len() - k,
                        {
                            t.push(tv[k]);
                            proof {
                                assert(tv@.take(k + 1) =~= tv@.take(k as int).push(tv@[k as int]));
                            }
                            k = k + 1;
                        }
                        t.push('"');
                        let mut k: usize = 0;
                        let ghost t0 = t@;
                        while k < nv.len()
                            invariant
                                k <= nv.len(),
                                t@ == t0 + nv@.take(k as int),
                            decreases nv.len() - k,
                        {
                            t.push(nv[k]);
                            proof {
                                assert(nv@.take(k + 1) =~= nv@.take(k as int).push(nv@[k as int]));
                            }
                            k = k + 1;
                        }
                        proof {
                            assert(tv@.take(tv@.len() as int) =~= tv@);
                            assert(nv@.take(nv@.len() as int) =~= nv@);
                            assert(t@ =~= seq!['"'] + tok@ + seq!['"'] + nx@);
                            assert(items[i + 1] == list@[i + 1]@);
                            assert(atom_of(items[i + 1]) == Some(nx@));
                        }
                        let token = string_from_chars(t);
                        let p = parse_pin_ref(token.as_str());
                        proof {
                            assert(pin_refs_view(pins@.push(p)) =~= pin_refs_view(pins@).push(p@));
                            assert(pins_from(items, i as int) == seq![p@] + pins_from(items, i + 2));
                            assert(p0.push(p@) + pins_from(items, i + 2) =~= p0 + (seq![p@] + pins_from(items, i + 2)));
                        }
                        pins.push(p);
                        joined = true;
                    }
                }
            }
            if joined {
                i = i + 2;
            } else {
                let p = parse_pin_ref(tok);
                proof {
                    assert(pin_refs_view(pins@.push(p)) =~= pin_refs_view(pins@).push(p@));
                    assert(items[i as int] == list@[i as int]@);
                    if i + 1 < items.len() {
                        assert(items[i + 1] == list@[i + 1]@);
                    }
                    assert(pins_from(items, i as int) == seq![p@] + pins_from(items, i + 1));
                    assert(p0.push(p@) + pins_from(items, i + 1) =~= p0 + (seq![p@] + pins_from(items, i + 1)));
                }
                pins.push(p);
                i = i + 1;
            }
        } else {
            proof {
                assert(pins_from(items, i as int) == pins_from(items, i + 1));
            }
            i = i + 1;
        }
    }
    proof {
        assert(pins_from(items, i as int) == Seq::<PinRefView>::empty());
        assert(pin_refs_view(pins@) + Seq::<PinRefView>::empty() =~= pin_refs_view(pins@));
    }
    pins
}

fn parse_net(item: &Sexp) -> (r: Net)
    ensures
        r@ == net_of(item@),
{
    let name = match item.as_list() {
        Some(l) => atom_or_exec(l, 1, ""),
        None => {
            proof {
                reveal_strlit("");
            }
            "".to_owned()
        },
    };
    let pins = match item.find("pins") {
        Some(p) => parse_pins(p),
        None => {
            let v: Vec<PinRef> = Vec::new();
            assert(pin_refs_view(v@) =~= Seq::<PinRefView>::empty());
            v
        },
    };
    Net { name, pins }
}

fn parse_network(node: Option<&Sexp>) -> (r: Vec<Net>)
    ensures
        nets_view(r@) == network_of(opt_view(node)),
{
    let mut nets: Vec<Net> = Vec::new();
    assert(nets_view(nets@) =~= Seq::<NetView>::empty());
    let node = match node {
        Some(n) => n,
        None => return nets,
    };
    let list = match node.as_list() {
        Some(l) => l,
        None => return nets,
    };
    let ghost items = sexps_view(list@);
    proof {
        lemma_sexps_view(list@);
    }
    let mut i: usize = 1;
    while i < list.len()
        invariant
            1 <= i,
            i <= list.len() || i == 1,
            items == sexps_view(list@),
            items.len() == list@.len(),
            forall|k: int| 0 <= k < items.len() ==> #[trigger] items[k] == list@[k]@,
            nets_view(nets@) == network_fold(items, i as int),
        decreases list.len() - i,
    {
        let item = &list[i];
        if is_named(item, "net") {
            let n = parse_net(item);
            proof {
                assert(nets_view(nets@.push(n)) =~= nets_view(nets@).push(n@));
            }
            nets.push(n);
        }
        i = i + 1;
    }
    proof {
        if list.len() == 0 {
            assert(network_fold(items, 0) == network_fold(items, 1));
        }
    }
    nets
}

// ─── wiring ───────────────────────────────────────────────────────────────────

/// A `(wire (path LAYER WIDTH X Y ...) (net NAME))` form; none without a
/// path layer. Points stop at the first pair that is not two atoms.
pub open spec fn wire_of(node: SexpView) -> Option<WireView> {
    match find_child(node, "path"@) {
        None => None,
        Some(p) => {
            let l = items_of(p);
            match atom_at(l, 1) {
                None => None,
                Some(layer) => Some(
                    WireView {
                        net_name: match find_child(node, "net"@) {
                            Some(n) => atom_or(items_of(n), 1, ""@),
                            None => ""@,
                        },
                        layer,
                        width: num_or(l, 2, 0),
                        points: pairs_from(l, 3, true),
                    },
                ),
            }
        },
    }
}

/// The wires among `items[1..n]`.
pub open spec fn wiring_fold(items: Seq<SexpView>, n: int) -> Seq<WireView>
    decreases n,
{
    if n <= 1 {
        Seq::empty()
    } else if has_name(items[n - 1], "wire"@) {
        match wire_of(items[n - 1]) {
            Some(w) => wiring_fold(items, n - 1).push(w),
            None => wiring_fold(items, n - 1),
        }
    } else {
        wiring_fold(items, n - 1)
    }
}

/// The wires of a `(wiring ...)` form.
pub open spec fn wiring_of(node: Option<SexpView>) -> Seq<WireView> {
    match node {
        Some(n) => match children_of(n) {
            Some(items) => wiring_fold(items, items.len() as int),
            None => Seq::empty(),
        },
        None => Seq::empty(),
    }
}

pub open spec fn wires_view(v: Seq<Wire>) -> Seq<WireView> {
    v.map_values(|w: Wire| w@)
}

fn parse_wire(node: &Sexp) -> (r: Option<Wire>)
    ensures
        match wire_of(node@) {
            Some(w) => r matches Some(q) && q@ == w,
            None => r is None,
        },
{
    let path = match node.find("path") {
        Some(p) => p,
        None => return None,
    };
    let l = match path.as_list() {
        Some(l) => l,
        None => return None,
    };
    let layer = match atom_at_exec(l, 1) {
        Some(a) => a.to_owned(),
        None => return None,
    };
    let width = num_or_exec(l, 2, 0);
    let points = pairs_from_exec(l, 3, true);
    let net_name = match node.find("net") {
        Some(n) => match n.as_list() {
            Some(nl) => atom_or_exec(nl, 1, ""),
            None => "".to_owned(),
        },
        None => "".to_owned(),
    };
    Some(Wire { net_name, layer, width, points })
}

fn parse_wiring(node: Option<&Sexp>) -> (r: Vec<Wire>)
    ensures
        wires_view(r@) == wiring_of(opt_view(node)),
{
    let mut wires: Vec<Wire> = Vec::new();
    assert(wires_view(wires@) =~= Seq::<WireView>::empty());
    let node = match node {
        Some(n) => n,
        None => return wires,
    };
    let list = match node.as_list() {
        Some(l) => l,
        None => return wires,
    };
    let ghost items = sexps_view(list@);
    proof {
        lemma_sexps_view(list@);
    }
    let mut i: usize = 1;
    while i < list.len()
        invariant
            1 <= i,
            i <= list.len() || i == 1,
            items == sexps_view(list@),
            items.len() == list@.len(),
            forall|k: int| 0 <= k < items.len() ==> #[trigger] items[k] == list@[k]@,
            wires_view(wires@) == wiring_fold(items, i as int),
        decreases list.len() - i,
    {
        let item = &list[i];
        if is_named(item, "wire") {
            if let Some(w) = parse_wire(item) {
                proof {
                    assert(wires_view(wires@.push(w)) =~= wires_view(wires@).push(w@));
                }
                wires.push(w);
            }
        }
        i = i + 1;
    }
    proof {
        if list.len() == 0 {
            assert(wiring_fold(items, 0) == wiring_fold(items, 1));
        }
    }
    wires
}

// ─── the whole design ─────────────────────────────────────────────────────────

/// The `(pcb ...)` form of a file: the top node itself when it is one, else
/// the first top-level `pcb` list.
pub open spec fn pcb_of(root: SexpView) -> Option<SexpView> {
    if name_of(root) == Some("pcb"@) {
        Some(root)
    } else {
        find_child(root, "pcb"@)
    }
}

pub open spec fn resolution_of(pcb: SexpView) -> ResolutionView {
    match find_child(pcb, "resolution"@) {
        Some(r) => ResolutionView {
            unit: atom_or(items_of(r), 1, "um"@),
            value: num_or(items_of(r), 2, 1),
        },
        None => ResolutionView { unit: "um"@, value: 1 },
    }
}

/// The design that a `(pcb NAME ...)` form describes.
pub open spec fn design_of(pcb: SexpView) -> DesignView {
    let res = resolution_of(pcb);
    let st = structure_of(find_child(pcb, "structure"@));
    let lib = library_of(find_child(pcb, "library"@));
    DesignView {
        name: atom_or(items_of(pcb), 1, "unnamed"@),
        resolution: res,
        unit: match find_child(pcb, "unit"@) {
            Some(u) => atom_or(items_of(u), 1, "um"@),
            None => res.unit,
        },
        layers: st.layers,
        boundary: st.boundary,
        rules: st.rules,
        components: placement_of(find_child(pcb, "placement"@)),
        images: lib.images,
        padstacks: lib.padstacks,
        nets: network_of(find_child(pcb, "network"@)),
        wiring: wiring_of(find_child(pcb, "wiring"@)),
    }
}

/// What [`parse_dsn`] makes of a text.
pub open spec fn dsn_of(text: Seq<char>) -> Result<DesignView, Seq<char>> {
    match parse_text(text) {
        Err(m) => Err(m),
        Ok(root) => match pcb_of(root) {
            Some(pcb) => Ok(design_of(pcb)),
            None => Err("No (pcb ...) top-level form found"@),
        },
    }
}

fn opt_find<'a>(node: &'a Sexp, key: &str) -> (r: Option<&'a Sexp>)
    ensures
        opt_view(r) == find_child(node@, key@),
{
    node.find(key)
}

/// The resolution of a design is read from its text: where the `pcb` form
/// holds a `(resolution U N)` form with atoms `U` and `N` (the first
/// `resolution` form), the design's unit is `U` and its value is the number
/// that `N` spells.
pub proof fn lemma_resolution_read(text: Seq<char>, root: SexpView, pcb: SexpView, r: SexpView, u: Seq<char>, n: Seq<char>)
    requires
        parse_text(text) == Ok::<SexpView, Seq<char>>(root),
        pcb_of(root) == Some(pcb),
        find_child(pcb, "resolution"@) == Some(r),
        items_of(r).len() >= 3,
        items_of(r)[1] == SexpView::Atom(u),
        items_of(r)[2] == SexpView::Atom(n),
    ensures
        dsn_of(text) matches Ok(d) && d.resolution.unit == u && d.resolution.value == number_value(n),
{
}

/// Reads a Specctra DSN design from its text.
pub fn parse_dsn(input: &str) -> (r: Result<DsnDesign, String>)
    ensures
        match dsn_of(input@) {
            Ok(d) => r matches Ok(design) && design@ == d,
            Err(m) => r matches Err(msg) && msg@ == m,
        },
{
    let root = Sexp::parse(input)?;
    let pcb: &Sexp = if is_named(&root, "pcb") {
        &root
    } else {
        match root.find("pcb") {
            Some(p) => p,
            None => return Err("No (pcb ...) top-level form found".to_owned()),
        }
    };
    proof {
        lemma_find_child(root@, "pcb"@);
    }
    let list = match pcb.as_list() {
        Some(l) => l,
        None => return Err("pcb is not a list".to_owned()),
    };
    let name = atom_or_exec(list, 1, "unnamed");
    let resolution = match pcb.find("resolution") {
        Some(res) => match res.as_list() {
            Some(rl) => Resolution { unit: atom_or_exec(rl, 1, "um"), value: num_or_exec(rl, 2, 1) },
            None => Resolution { unit: "um".to_owned(), value: 1 },
        },
        None => Resolution { unit: "um".to_owned(), value: 1 },
    };
    let unit = match pcb.find("unit") {
        Some(u) => match u.as_list() {
            Some(ul) => atom_or_exec(ul, 1, "um"),
            None => "um".to_owned(),
        },
        None => resolution.unit.clone(),
    };
    let (layers, boundary, rules) = parse_structure(opt_find(pcb, "structure"));
    let (images, padstacks) = parse_library(opt_find(pcb, "library"));
    let components = parse_placement(opt_find(pcb, "placement"));
    let nets = parse_network(opt_find(pcb, "network"));
    let wiring = parse_wiring(opt_find(pcb, "wiring"));
    let design = DsnDesign {
        name,
        resolution,
        unit,
        layers,
        boundary,
        rules,
        components,
        images,
        padstacks,
        nets,
        wiring,
    };
    proof {
        reveal_strlit("um");
        assert(design@.layers =~= layers_view(layers@));
    }
    Ok(design)
}

// ─── pad positions ────────────────────────────────────────────────────────────

/// Where each pin of each placed component lies relative to the placement's
/// point: `offsets[c][p][k]` is for pin `k` of the image of component `c`
/// at its placement `p`, after the pin's and the placement's rotations and,
/// on the back side, the mirror in x. Rotation is trigonometry on the angle
/// texts of the design, so the offsets are computed by the caller.
#[derive(Debug, Clone)]
pub struct PinOffsets {
    pub offsets: Vec<Vec<Vec<(i64, i64)>>>,
}

impl View for PinOffsets {
    type V = Seq<Seq<Seq<(i64, i64)>>>;

    open spec fn view(&self) -> Seq<Seq<Seq<(i64, i64)>>> {
        self.offsets@.map_values(|v: Vec<Vec<(i64, i64)>>| v@.map_values(|w: Vec<(i64, i64)>| w@))
    }
}

/// The largest coordinate magnitude the router works with.
pub open spec fn coord_limit() -> int {
    0x10_0000_0000
}

pub open spec fn coord_ok(v: i64) -> bool {
    -coord_limit() <= v <= coord_limit()
}

/// Index of the first image named `name`, looked up from the component side.
pub open spec fn image_of_component(d: DesignView, c: int) -> Option<int> {
    image_index(d.images, d.components[c].image_name)
}

/// The offsets have one entry per placement of each component and, where the
/// component's image exists, one per pin of that image.
pub open spec fn offsets_fit(d: DesignView, o: Seq<Seq<Seq<(i64, i64)>>>) -> bool {
    &&& o.len() == d.components.len()
    &&& forall|c: int|
        0 <= c < o.len() ==> #[trigger] o[c].len() == d.components[c].places.len()
    &&& forall|c: int, p: int|
        #![trigger o[c][p]]
        0 <= c < o.len() && 0 <= p < o[c].len() ==> match image_of_component(d, c) {
            Some(ii) => o[c][p].len() == d.images[ii].pins.len(),
            None => true,
        }
    &&& forall|c: int, p: int, k: int|
        #![trigger o[c][p][k]]
        0 <= c < o.len() && 0 <= p < o[c].len() && 0 <= k < o[c][p].len() ==> coord_ok(
            o[c][p][k].0,
        ) && coord_ok(o[c][p][k].1)
}

/// Index of the first placement at or after `i` with reference `r`.
pub open spec fn place_index(places: Seq<PlaceView>, r: Seq<char>, i: int) -> Option<int>
    decreases places.len() - i,
{
    if i < 0 || i >= places.len() {
        None
    } else if places[i].reference == r {
        Some(i)
    } else {
        place_index(places, r, i + 1)
    }
}

/// The first component (from `c` on) with a placement named `r`, and that
/// placement.
pub open spec fn find_place(comps: Seq<ComponentView>, r: Seq<char>, c: int) -> Option<(int, int)>
    decreases comps.len() - c,
{
    if c < 0 || c >= comps.len() {
        None
    } else {
        match place_index(comps[c].places, r, 0) {
            Some(p) => Some((c, p)),
            None => find_place(comps, r, c + 1),
        }
    }
}

/// Index of the first pin at or after `i` numbered `num`.
pub open spec fn pin_index(pins: Seq<ImagePinView>, num: Seq<char>, i: int) -> Option<int>
    decreases pins.len() - i,
{
    if i < 0 || i >= pins.len() {
        None
    } else if pins[i].pin_number == num {
        Some(i)
    } else {
        pin_index(pins, num, i + 1)
    }
}

pub open spec fn shape_layer(s: PadShapeView) -> Seq<char> {
    match s {
        PadShapeView::Circle { layer, .. } => layer,
        PadShapeView::Rect { layer, .. } => layer,
        PadShapeView::Oval { layer, .. } => layer,
        PadShapeView::Polygon { layer, .. } => layer,
        PadShapeView::Path { layer, .. } => layer,
    }
}

/// The copper layer of a component's side.
pub open spec fn side_layer(side: Side) -> Seq<char> {
    if side == Side::Back {
        "B.Cu"@
    } else {
        "F.Cu"@
    }
}

/// The layer of a pad: that of its padstack's first shape, where `*.Cu`
/// (every copper layer) and a missing padstack or shape mean the side's layer.
pub open spec fn pad_layer(d: DesignView, pin: ImagePinView, side: Side) -> Seq<char> {
    match padstack_index(d.padstacks, pin.padstack_name) {
        Some(k) => if d.padstacks[k].shapes.len() > 0 {
            let l = shape_layer(d.padstacks[k].shapes[0]);
            if l == "*.Cu"@ {
                side_layer(side)
            } else {
                l
            }
        } else {
            side_layer(side)
        },
        None => side_layer(side),
    }
}

/// Where the pin `pin_num` of the placement `comp_ref` lies, and its layer:
/// the first placement with that reference, the first image with its
/// component's name, the first pin with that number.
pub open spec fn pad_position(
    d: DesignView,
    o: Seq<Seq<Seq<(i64, i64)>>>,
    comp_ref: Seq<char>,
    pin_num: Seq<char>,
) -> Option<(i64, i64, Seq<char>)> {
    match find_place(d.components, comp_ref, 0) {
        None => None,
        Some((c, p)) => match image_of_component(d, c) {
            None => None,
            Some(ii) => match pin_index(d.images[ii].pins, pin_num, 0) {
                None => None,
                Some(k) => {
                    let place = d.components[c].places[p];
                    let off = o[c][p][k];
                    Some(
                        (
                            (place.x + off.0) as i64,
                            (place.y + off.1) as i64,
                            pad_layer(d, d.images[ii].pins[k], place.side),
                        ),
                    )
                },
            },
        },
    }
}

/// Every placement point lies within the router's coordinate range.
pub open spec fn places_in_range(d: DesignView) -> bool {
    forall|c: int, p: int|
        #![trigger d.components[c].places[p]]
        0 <= c < d.components.len() && 0 <= p < d.components[c].places.len() ==> coord_ok(
            d.components[c].places[p].x,
        ) && coord_ok(d.components[c].places[p].y)
}

proof fn lemma_place_index(places: Seq<PlaceView>, r: Seq<char>, i: int)
    requires
        0 <= i,
    ensures
        place_index(places, r, i) matches Some(k) ==> i <= k < places.len() && places[k].reference
            == r,
    decreases places.len() - i,
{
    if i < places.len() {
        lemma_place_index(places, r, i + 1);
    }
}

proof fn lemma_find_place(comps: Seq<ComponentView>, r: Seq<char>, c: int)
    requires
        0 <= c,
    ensures
        find_place(comps, r, c) matches Some((ci, pi)) ==> c <= ci < comps.len() && 0 <= pi
            < comps[ci].places.len(),
    decreases comps.len() - c,
{
    if c < comps.len() {
        lemma_place_index(comps[c].places, r, 0);
        lemma_find_place(comps, r, c + 1);
    }
}

proof fn lemma_pin_index(pins: Seq<ImagePinView>, num: Seq<char>, i: int)
    requires
        0 <= i,
    ensures
        pin_index(pins, num, i) matches Some(k) ==> i <= k < pins.len(),
    decreases pins.len() - i,
{
    if i < pins.len() {
        lemma_pin_index(pins, num, i + 1);
    }
}

proof fn lemma_image_index(lib: Seq<ImageView>, name: Seq<char>)
    ensures
        image_index(lib, name) matches Some(k) ==> 0 <= k < lib.len() && lib[k].name == name,
    decreases lib.len(),
{
    if lib.len() > 0 {
        lemma_image_index(lib.drop_last(), name);
    }
}

proof fn lemma_padstack_index(lib: Seq<PadstackView>, name: Seq<char>)
    ensures
        padstack_index(lib, name) matches Some(k) ==> 0 <= k < lib.len() && lib[k].name == name,
    decreases lib.len(),
{
    if lib.len() > 0 {
        lemma_padstack_index(lib.drop_last(), name);
    }
}

/// The first component with a placement named `comp_ref`, and that placement.
pub fn find_placement(design: &DsnDesign, comp_ref: &str) -> (r: Option<(usize, usize)>)
    ensures
        match find_place(design@.components, comp_ref@, 0) {
            Some((c, p)) => r matches Some((ci, pi)) && ci as int == c && pi as int == p,
            None => r is None,
        },
        r matches Some((c, p)) ==> c < design@.components.len() && p
            < design@.components[c as int].places.len(),
{
    proof {
        lemma_find_place(design@.components, comp_ref@, 0);
    }
    let ghost comps = design@.components;
    let mut c: usize = 0;
    while c < design.components.len()
        invariant
            comps == design@.components,
            comps.len() == design.components@.len(),
            c <= design.components.len(),
            find_place(comps, comp_ref@, 0) == find_place(comps, comp_ref@, c as int),
        decreases design.components.len() - c,
    {
        let places = &design.components[c].places;
        let ghost pv = comps[c as int].places;
        assert(pv == places_view(places@));
        let mut p: usize = 0;
        while p < places.len()
            invariant
                pv == places_view(places@),
                comps == design@.components,
                c < comps.len(),
                pv == comps[c as int].places,
                find_place(comps, comp_ref@, 0) == find_place(comps, comp_ref@, c as int),
                p <= places.len(),
                place_index(pv, comp_ref@, 0) == place_index(pv, comp_ref@, p as int),
            decreases places.len() - p,
        {
            if str_eq(places[p].reference.as_str(), comp_ref) {
                return Some((c, p));
            }
            p = p + 1;
        }
        c = c + 1;
    }
    None
}

/// Index of the first pin numbered `num` among an image's pins.
pub fn find_pin(pins: &Vec<ImagePin>, num: &str) -> (r: Option<usize>)
    ensures
        match pin_index(pins_view(pins@), num@, 0) {
            Some(k) => r matches Some(j) && j as int == k,
            None => r is None,
        },
        r matches Some(k) ==> k < pins@.len(),
{
    proof {
        lemma_pin_index(pins_view(pins@), num@, 0);
    }
    let mut k: usize = 0;
    while k < pins.len()
        invariant
            k <= pins.len(),
            pin_index(pins_view(pins@), num@, 0) == pin_index(pins_view(pins@), num@, k as int),
        decreases pins.len() - k,
    {
        if str_eq(pins[k].pin_number.as_str(), num) {
            return Some(k);
        }
        k = k + 1;
    }
    None
}

/// The layer of a pad shape.
pub fn shape_layer_exec(s: &PadShape) -> (r: &str)
    ensures
        r@ == shape_layer(s@),
{
    match s {
        PadShape::Circle { layer, .. } => layer.as_str(),
        PadShape::Rect { layer, .. } => layer.as_str(),
        PadShape::Oval { layer, .. } => layer.as_str(),
        PadShape::Polygon { layer, .. } => layer.as_str(),
        PadShape::Path { layer, .. } => layer.as_str(),
    }
}

fn side_layer_exec(side: Side) -> (r: &'static str)
    ensures
        r@ == side_layer(side),
{
    if side == Side::Back {
        "B.Cu"
    } else {
        "F.Cu"
    }
}

fn pad_layer_exec(design: &DsnDesign, pin: &ImagePin, side: Side) -> (r: String)
    ensures
        r@ == pad_layer(design@, pin@, side),
{
    match find_padstack(&design.padstacks, pin.padstack_name.as_str()) {
        Some(k) => {
            let shapes = &design.padstacks[k].shapes;
            if shapes.len() > 0 {
                let l = shape_layer_exec(&shapes[0]);
                if str_eq(l, "*.Cu") {
                    side_layer_exec(side).to_owned()
                } else {
                    l.to_owned()
                }
            } else {
                side_layer_exec(side).to_owned()
            }
        },
        None => side_layer_exec(side).to_owned(),
    }
}

/// Where the pin `pin_num` of the placed component `comp_ref` lies, and on
/// which layer; `None` when the placement, its image or the pin is missing.
/// What [`get_pad_position`] reads is there: where the lookups of the pad
/// succeed, its placement and its offset exist, and their sums fit in an
/// `i64`.
pub open spec fn pad_inputs_ok(d: DesignView, o: Seq<Seq<Seq<(i64, i64)>>>, comp_ref: Seq<char>, pin_num: Seq<char>) -> bool {
    match find_place(d.components, comp_ref, 0) {
        None => true,
        Some((c, p)) => match image_of_component(d, c) {
            None => true,
            Some(ii) => match pin_index(d.images[ii].pins, pin_num, 0) {
                None => true,
                Some(k) => {
                    &&& 0 <= c < o.len()
                    &&& 0 <= p < o[c].len()
                    &&& 0 <= k < o[c][p].len()
                    &&& i64::MIN <= d.components[c].places[p].x + o[c][p][k].0 <= i64::MAX
                    &&& i64::MIN <= d.components[c].places[p].y + o[c][p][k].1 <= i64::MAX
                },
            },
        },
    }
}

/// Offsets for every pin and placements in range give what any pad lookup
/// reads.
pub proof fn lemma_pad_inputs_ok(d: DesignView, o: Seq<Seq<Seq<(i64, i64)>>>, comp_ref: Seq<char>, pin_num: Seq<char>)
    requires
        offsets_fit(d, o),
        places_in_range(d),
    ensures
        pad_inputs_ok(d, o, comp_ref, pin_num),
{
    lemma_find_place(d.components, comp_ref, 0);
    if let Some((c, p)) = find_place(d.components, comp_ref, 0) {
        if let Some(ii) = image_of_component(d, c) {
            lemma_pin_index(d.images[ii].pins, pin_num, 0);
            if let Some(k) = pin_index(d.images[ii].pins, pin_num, 0) {
                assert(o[c].len() == d.components[c].places.len());
                assert(o[c][p].len() == d.images[ii].pins.len());
                assert(coord_ok(o[c][p][k].0));
                assert(coord_ok(d.components[c].places[p].x));
            }
        }
    }
}

pub fn get_pad_position(design: &DsnDesign, offsets: &PinOffsets, comp_ref: &str, pin_num: &str) -> (r: Option<(i64, i64, String)>)
    requires
        pad_inputs_ok(design@, offsets@, comp_ref@, pin_num@),
    ensures
        match pad_position(design@, offsets@, comp_ref@, pin_num@) {
            Some((x, y, l)) => r matches Some((rx, ry, rl)) && rx == x && ry == y && rl@ == l,
            None => r is None,
        },
{
    let (c, p) = match find_placement(design, comp_ref) {
        Some(cp) => cp,
        None => return None,
    };
    proof {
        lemma_find_place(design@.components, comp_ref@, 0);
    }
    let comp = &design.components[c];
    let ii = match find_image(&design.images, comp.image_name.as_str()) {
        Some(ii) => ii,
        None => return None,
    };
    let image = &design.images[ii];
    let k = match find_pin(&image.pins, pin_num) {
        Some(k) => k,
        None => return None,
    };
    proof {
        lemma_pin_index(pins_view(image.pins@), pin_num@, 0);
        assert(image_of_component(design@, c as int) == Some(ii as int));
        assert(design@.images[ii as int] == image@);
        assert(offsets@[c as int][p as int].len() > k);
    }
    let place = &comp.places[p];
    let pin = &image.pins[k];
    proof {
        let o = offsets@;
        assert(o[c as int] == offsets.offsets@[c as int]@.map_values(|w: Vec<(i64, i64)>| w@));
        assert(o[c as int][p as int] == offsets.offsets@[c as int]@[p as int]@);
    }
    let (dx, dy) = offsets.offsets[c][p][k];
    proof {
        assert(offsets@[c as int][p as int][k as int] == (dx, dy));
        assert(place@ == design@.components[c as int].places[p as int]);
    }
    let layer = pad_layer_exec(design, pin, place.side);
    Some((place.x + dx, place.y + dy, layer))
}

/// A pad lies at its placement point plus its pin's offset, on either side
/// of the board: the offsets already carry any mirroring, so the side adds
/// nothing to the sum. The placement is the first one of `comp_ref`, and the
/// pin the first of its image numbered `pin_num`.
pub proof fn lemma_pad_at_offset(d: DesignView, o: Seq<Seq<Seq<(i64, i64)>>>, comp_ref: Seq<char>, pin_num: Seq<char>)
    requires
        pad_inputs_ok(d, o, comp_ref, pin_num),
    ensures
        pad_position(d, o, comp_ref, pin_num) matches Some((x, y, _)) ==> (find_place(d.components, comp_ref, 0) matches Some(
            (c, p),
        ) && image_of_component(d, c) matches Some(ii) && pin_index(d.images[ii].pins, pin_num, 0) matches Some(k)
            && x == d.components[c].places[p].x + o[c][p][k].0 && y == d.components[c].places[p].y + o[c][p][k].1),
{
}

/// A pad position lies within twice the coordinate limit.
pub proof fn lemma_pad_position_range(
    d: DesignView,
    o: Seq<Seq<Seq<(i64, i64)>>>,
    comp_ref: Seq<char>,
    pin_num: Seq<char>,
)
    requires
        offsets_fit(d, o),
        places_in_range(d),
    ensures
        pad_position(d, o, comp_ref, pin_num) matches Some((x, y, l)) ==> -2 * coord_limit() <= x
            <= 2 * coord_limit() && -2 * coord_limit() <= y <= 2 * coord_limit(),
{
    lemma_find_place(d.components, comp_ref, 0);
    match find_place(d.components, comp_ref, 0) {
        None => {},
        Some((c, p)) => {
            lemma_image_index(d.images, d.components[c].image_name);
            match image_of_component(d, c) {
                None => {},
                Some(ii) => {
                    lemma_pin_index(d.images[ii].pins, pin_num, 0);
                    match pin_index(d.images[ii].pins, pin_num, 0) {
                        None => {},
                        Some(k) => {
                            assert(o[c].len() == d.components[c].places.len());
                            assert(o[c][p].len() == d.images[ii].pins.len());
                            let off = o[c][p][k];
                            assert(coord_ok(off.0) && coord_ok(off.1));
                            let place = d.components[c].places[p];
                            assert(coord_ok(place.x) && coord_ok(place.y));
                        },
                    }
                },
            }
        },
    }
}

/// The offset of pin `k` of the image of component `c` at its placement `p`.
pub fn pin_offset(design: &DsnDesign, offsets: &PinOffsets, c: usize, p: usize, k: usize) -> (r: (i64, i64))
    requires
        offsets_fit(design@, offsets@),
        c < design@.components.len(),
        p < design@.components[c as int].places.len(),
        image_of_component(design@, c as int) matches Some(ii) && k < design@.images[ii].pins.len(),
    ensures
        r == offsets@[c as int][p as int][k as int],
        coord_ok(r.0) && coord_ok(r.1),
{
    proof {
        let o = offsets@;
        assert(o[c as int].len() == design@.components[c as int].places.len());
        assert(o[c as int] == offsets.offsets@[c as int]@.map_values(|w: Vec<(i64, i64)>| w@));
        assert(o[c as int][p as int] == offsets.offsets@[c as int]@[p as int]@);
    }
    offsets.offsets[c][p][k]
}

/// The value of an optional node.
pub open spec fn opt_view(n: Option<&Sexp>) -> Option<SexpView> {
    match n {
        Some(s) => Some(s@),
        None => None,
    }
}

} // verus!
