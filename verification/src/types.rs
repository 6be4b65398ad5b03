//! The three numeric domains, the closed-interval values that live in them,
//! and the spec vocabulary for reasoning about lists of such intervals.

use vstd::prelude::*;

verus! {

/// Which numeric universe a range belongs to; it fixes the global bounds.
#[derive(Clone, Copy, Debug, PartialEq, Eq, Structural)]
pub enum TypeRange {
    Port,
    IP,
    Socket,
}

/// Largest port value: the port domain is 16 bits wide.
pub const MAX_PORT: u64 = 0xFFFF;

/// Largest address value: the address domain is 32 bits wide.
pub const MAX_IP: u64 = 0xFFFF_FFFF;

/// Largest socket key: a 32-bit address concatenated with a 16-bit port.
pub const MAX_SOCKET: u64 = 0xFFFF_FFFF_FFFF;

/// Global upper bound of a domain; the global minimum is 0 for all three.
pub open spec fn domain_max(t: TypeRange) -> u64 {
    match t {
        TypeRange::Port => MAX_PORT,
        TypeRange::IP => MAX_IP,
        TypeRange::Socket => MAX_SOCKET,
    }
}

/// A closed interval `[begin, end]` carrying its domain tag as data.
///
/// This is the uniform carrier that the set algebra works on: every concrete
/// range type can turn itself into one via [`Range::duplicate`].
#[derive(Clone, Copy, Debug, PartialEq, Eq, Structural)]
pub struct Span {
    pub begin: u64,
    pub end: u64,
    pub range_of: TypeRange,
}

/// The interval is not inverted and lies inside its domain.
pub open spec fn span_wf(s: Span) -> bool {
    s.begin <= s.end && s.end <= domain_max(s.range_of)
}

/// The point `x` lies inside the closed interval `s`.
pub open spec fn in_span(s: Span, x: int) -> bool {
    s.begin <= x <= s.end
}

/// Some interval of the list contains the point `x`.
pub open spec fn covers(rs: Seq<Span>, x: int) -> bool {
    exists|i: int| 0 <= i < rs.len() && in_span(rs[i], x)
}

/// Every interval of the list is well formed and belongs to the domain `t`.
pub open spec fn all_wf(rs: Seq<Span>, t: TypeRange) -> bool {
    forall|i: int| 0 <= i < rs.len() ==> span_wf(#[trigger] rs[i]) && rs[i].range_of == t
}

/// Begins are nondecreasing.
pub open spec fn sorted_by_begin(rs: Seq<Span>) -> bool {
    forall|i: int, j: int| 0 <= i <= j < rs.len() ==> rs[i].begin <= rs[j].begin
}

/// Ends are nondecreasing.
pub open spec fn ends_sorted(rs: Seq<Span>) -> bool {
    forall|i: int, j: int| 0 <= i <= j < rs.len() ==> rs[i].end <= rs[j].end
}

/// Intervals do not overlap: each one ends strictly before a later one
/// begins (touching pairs such as `[0, 5], [6, 9]` are still allowed).
pub open spec fn disjoint(rs: Seq<Span>) -> bool {
    forall|i: int, j: int| 0 <= i < j < rs.len() ==> rs[i].end < rs[j].begin
}

/// The canonical shape: each interval ends at least two points before a later
/// one begins, so no two of them could be merged into one.
pub open spec fn separated(rs: Seq<Span>) -> bool {
    forall|i: int, j: int| 0 <= i < j < rs.len() ==> rs[i].end + 1 < rs[j].begin
}

/// A well-formed list only covers points of its domain `[0, max]`.
pub proof fn lemma_covers_in_domain(rs: Seq<Span>, t: TypeRange)
    requires
        all_wf(rs, t),
    ensures
        forall|x: int| covers(rs, x) ==> 0 <= x <= domain_max(t),
{
}

/// A separated well-formed list is sorted in both bounds and pairwise disjoint.
pub proof fn lemma_separated_props(rs: Seq<Span>, t: TypeRange)
    requires
        all_wf(rs, t),
        separated(rs),
    ensures
        sorted_by_begin(rs),
        ends_sorted(rs),
        disjoint(rs),
{
    assert forall|i: int, j: int| 0 <= i <= j < rs.len() implies rs[i].begin <= rs[j].begin
        && rs[i].end <= rs[j].end by {
        if i < j {
            assert(span_wf(rs[i]));
            assert(span_wf(rs[j]));
            assert(rs[i].end + 1 < rs[j].begin);
        }
    }
}

/// What a rendered interval looks like: the decimal text of its two bounds,
/// produced by std's formatting machinery (named, not restated, here).
pub uninterp spec fn rendered_pair(begin: u64, end: u64) -> Seq<char>;

/// Relies on std's `format!`/`Display` for `u64`: the decimal text of a pair
/// of numbers depends on those two numbers alone.
#[verifier::external_body]
pub(crate) fn render_pair(begin: u64, end: u64) -> (r: String)
    ensures
        r@ == rendered_pair(begin, end),
{
    format!("({}, {})", begin, end)
}

/// The shared face of the three concrete interval types: bounds, domain
/// bounds, the domain tag, in-place widening of the end, and duplication
/// into the uniform [`Span`] carrier.
pub trait Range: Sized {
    /// The stored lower bound.
    spec fn spec_begin(&self) -> u64;

    /// The stored upper bound.
    spec fn spec_end(&self) -> u64;

    /// The domain this type's values belong to.
    spec fn spec_domain(&self) -> TypeRange;

    /// Global minimum of the domain: always 0.
    fn min(&self) -> (r: u64)
        ensures
            r == 0,
    ;

    /// Global maximum of the domain.
    fn max(&self) -> (r: u64)
        ensures
            r == domain_max(self.spec_domain()),
    ;

    /// The domain tag.
    fn range_of(&self) -> (r: TypeRange)
        ensures
            r == self.spec_domain(),
    ;

    /// The stored lower bound.
    fn begin(&self) -> (r: u64)
        ensures
            r == self.spec_begin(),
    ;

    /// The stored upper bound.
    fn end(&self) -> (r: u64)
        ensures
            r == self.spec_end(),
    ;

    /// Overwrite the upper bound in place.
    fn set_end(&mut self, val: u64)
        ensures
            final(self).spec_begin() == old(self).spec_begin(),
            final(self).spec_end() == val,
            final(self).spec_domain() == old(self).spec_domain(),
    ;

    /// An independent copy as the uniform carrier value.
    fn duplicate(&self) -> (r: Span)
        ensures
            r.begin == self.spec_begin(),
            r.end == self.spec_end(),
            r.range_of == self.spec_domain(),
    ;
}

/// A closed interval of the 16-bit port domain.
#[derive(Clone, Copy, Debug, PartialEq, Eq, Structural)]
pub struct Port {
    pub begin: u64,
    pub end: u64,
}

/// A closed interval of the 32-bit address domain.
#[derive(Clone, Copy, Debug, PartialEq, Eq, Structural)]
pub struct IP {
    pub begin: u64,
    pub end: u64,
}

/// A closed interval of the 48-bit socket-key domain.
#[derive(Clone, Copy, Debug, PartialEq, Eq, Structural)]
pub struct Socket {
    pub begin: u64,
    pub end: u64,
}

impl Port {
    pub fn new(begin: u64, end: u64) -> (r: Self)
        ensures
            r.begin == begin,
            r.end == end,
    {
        Self { begin, end }
    }

    /// The interval as `(begin, end)` text, for diagnostics.
    pub fn render(&self) -> (r: String)
        ensures
            r@ == rendered_pair(self.begin, self.end),
    {
        render_pair(self.begin, self.end)
    }
}

impl IP {
    pub fn new(begin: u64, end: u64) -> (r: Self)
        ensures
            r.begin == begin,
            r.end == end,
    {
        Self { begin, end }
    }

    /// The interval as `(begin, end)` text, for diagnostics.
    pub fn render(&self) -> (r: String)
        ensures
            r@ == rendered_pair(self.begin, self.end),
    {
        render_pair(self.begin, self.end)
    }
}

impl Socket {
    pub fn new(begin: u64, end: u64) -> (r: Self)
        ensures
            r.begin == begin,
            r.end == end,
    {
        Self { begin, end }
    }

    /// The interval as `(begin, end)` text, for diagnostics.
    pub fn render(&self) -> (r: String)
        ensures
            r@ == rendered_pair(self.begin, self.end),
    {
        render_pair(self.begin, self.end)
    }
}

impl Range for Port {
    open spec fn spec_begin(&self) -> u64 {
        self.begin
    }

    open spec fn spec_end(&self) -> u64 {
        self.end
    }

    open spec fn spec_domain(&self) -> TypeRange {
        TypeRange::Port
    }

    fn min(&self) -> u64 {
        0
    }

    fn max(&self) -> u64 {
        MAX_PORT
    }

    fn range_of(&self) -> TypeRange {
        TypeRange::Port
    }

    fn begin(&self) -> u64 {
        self.begin
    }

    fn end(&self) -> u64 {
        self.end
    }

    fn set_end(&mut self, val: u64) {
        self.end = val;
    }

    fn duplicate(&self) -> Span {
        Span { begin: self.begin, end: self.end, range_of: TypeRange::Port }
    }
}

impl Range for IP {
    open spec fn spec_begin(&self) -> u64 {
        self.begin
    }

    open spec fn spec_end(&self) -> u64 {
        self.end
    }

    open spec fn spec_domain(&self) -> TypeRange {
        TypeRange::IP
    }

    fn min(&self) -> u64 {
        0
    }

    fn max(&self) -> u64 {
        MAX_IP
    }

    fn range_of(&self) -> TypeRange {
        TypeRange::IP
    }

    fn begin(&self) -> u64 {
        self.begin
    }

    fn end(&self) -> u64 {
        self.end
    }

    fn set_end(&mut self, val: u64) {
        self.end = val;
    }

    fn duplicate(&self) -> Span {
        Span { begin: self.begin, end: self.end, range_of: TypeRange::IP }
    }
}

impl Range for Socket {
    open spec fn spec_begin(&self) -> u64 {
        self.begin
    }

    open spec fn spec_end(&self) -> u64 {
        self.end
    }

    open spec fn spec_domain(&self) -> TypeRange {
        TypeRange::Socket
    }

    fn min(&self) -> u64 {
        0
    }

    fn max(&self) -> u64 {
        MAX_SOCKET
    }

    fn range_of(&self) -> TypeRange {
        TypeRange::Socket
    }

    fn begin(&self) -> u64 {
        self.begin
    }

    fn end(&self) -> u64 {
        self.end
    }

    fn set_end(&mut self, val: u64) {
        self.end = val;
    }

    fn duplicate(&self) -> Span {
        Span { begin: self.begin, end: self.end, range_of: TypeRange::Socket }
    }
}

impl Range for Span {
    open spec fn spec_begin(&self) -> u64 {
        self.begin
    }

    open spec fn spec_end(&self) -> u64 {
        self.end
    }

    open spec fn spec_domain(&self) -> TypeRange {
        self.range_of
    }

    fn min(&self) -> u64 {
        0
    }

    fn max(&self) -> u64 {
        match self.range_of {
            TypeRange::Port => MAX_PORT,
            TypeRange::IP => MAX_IP,
            TypeRange::Socket => MAX_SOCKET,
        }
    }

    fn range_of(&self) -> TypeRange {
        self.range_of
    }

    fn begin(&self) -> u64 {
        self.begin
    }

    fn end(&self) -> u64 {
        self.end
    }

    fn set_end(&mut self, val: u64) {
        self.end = val;
    }

    fn duplicate(&self) -> Span {
        *self
    }
}

impl Span {
    /// The interval as `(begin, end)` text, for diagnostics.
    pub fn render(&self) -> (r: String)
        ensures
            r@ == rendered_pair(self.begin, self.end),
    {
        render_pair(self.begin, self.end)
    }
}

} // verus!
