//! Ranges by their bounds, without overflow.

use std::ops::{Bound, Range, RangeFrom, RangeFull, RangeInclusive, RangeTo, RangeToInclusive};
use vstd::prelude::*;

verus! {

/// [`std::ops::Bound`], an endpoint of a range.
#[verifier::external_type_specification]
#[verifier::reject_recursive_types(T)]
pub struct ExBound<T>(Bound<T>);

/// [`std::ops::RangeFrom`], a range that is bounded below.
#[verifier::external_type_specification]
#[verifier::reject_recursive_types(T)]
pub struct ExRangeFrom<T>(RangeFrom<T>);

/// [`std::ops::RangeTo`], a range that is bounded above, without its end.
#[verifier::external_type_specification]
#[verifier::reject_recursive_types(T)]
pub struct ExRangeTo<T>(RangeTo<T>);

/// [`std::ops::RangeToInclusive`], a range that is bounded above, with its end.
#[verifier::external_type_specification]
#[verifier::reject_recursive_types(T)]
pub struct ExRangeToInclusive<T>(RangeToInclusive<T>);

/// [`std::ops::RangeFull`], the range of everything.
#[verifier::external_type_specification]
pub struct ExRangeFull(RangeFull);

/// [`std::ops::RangeBounds::start_bound`] of an inclusive range: its start, included. What it is
/// once the range was iterated to exhaustion is left unsaid.
#[verifier::external_body]
fn inclusive_lower<T: Copy>(range: &RangeInclusive<T>) -> (lower: Bound<T>)
    ensures
        !range@.exhausted ==> lower == Bound::Included(range@.start),
{
    std::ops::RangeBounds::start_bound(range).cloned()
}

/// [`std::ops::RangeBounds::end_bound`] of an inclusive range: its end, included. What it is once
/// the range was iterated to exhaustion is left unsaid.
#[verifier::external_body]
fn inclusive_upper<T: Copy>(range: &RangeInclusive<T>) -> (upper: Bound<T>)
    ensures
        !range@.exhausted ==> upper == Bound::Included(range@.end),
{
    std::ops::RangeBounds::end_bound(range).cloned()
}

/// The numbers zero and one.
pub trait ZeroOne: Number {
    fn zero() -> (zero: Self)
        ensures
            zero.val() == 0,
    ;

    fn one() -> (one: Self)
        ensures
            one.val() == 1,
    ;
}

/// An integer type.
pub trait Number: Sized + Copy {
    /// The number that `self` is.
    spec fn val(self) -> int;

    /// The lowest number of the type.
    spec fn lowest() -> int;

    /// The highest number of the type.
    spec fn highest() -> int;

    /// Every value lies between the lowest and the highest, and is given by its number.
    proof fn numbers(a: Self, b: Self)
        ensures
            Self::lowest() <= a.val() <= Self::highest(),
            a.val() == b.val() ==> a == b,
    ;
}

/// Arithmetic that does not panic.
///
/// It is the checked arithmetic of the standard library, which returns `None` where the result
/// lies outside of the type.
pub trait SafeArith: Number {
    fn safe_add(self, other: Self) -> (sum: Option<Self>)
        ensures
            num(sum) == fit::<Self>(self.val() + other.val()),
    ;

    fn safe_sub(self, other: Self) -> (difference: Option<Self>)
        ensures
            num(difference) == fit::<Self>(self.val() - other.val()),
    ;

    /// Check if `self` is less than `other`.
    fn precedes(self, other: Self) -> (less: bool)
        ensures
            less == (self.val() < other.val()),
    ;
}

/// The number of an optional value.
pub open spec fn num<T: Number>(v: Option<T>) -> Option<int> {
    match v {
        Some(v) => Some(v.val()),
        None => None,
    }
}

/// `n`, if it is a number of the type.
pub open spec fn fit<T: Number>(n: int) -> Option<int> {
    if T::lowest() <= n <= T::highest() {
        Some(n)
    } else {
        None
    }
}

/// The first number of a range with the given start, if it is bounded.
pub open spec fn first_from<T: Number>(start: Bound<T>) -> Option<int> {
    match start {
        Bound::Included(v) => Some(v.val()),
        Bound::Excluded(v) => Some(v.val() + 1),
        Bound::Unbounded => None,
    }
}

/// The number after the last one of a range with the given end, if it is bounded.
pub open spec fn end_before<T: Number>(end: Bound<T>) -> Option<int> {
    match end {
        Bound::Included(v) => Some(v.val() + 1),
        Bound::Excluded(v) => Some(v.val()),
        Bound::Unbounded => None,
    }
}

impl ZeroOne for u8 {
    fn zero() -> (zero: Self) {
        0
    }

    fn one() -> (one: Self) {
        1
    }
}

impl Number for u8 {
    open spec fn val(self) -> int {
        self as int
    }

    open spec fn lowest() -> int {
        u8::MIN as int
    }

    open spec fn highest() -> int {
        u8::MAX as int
    }

    proof fn numbers(a: Self, b: Self) {
    }
}

impl SafeArith for u8 {
    fn safe_add(self, other: Self) -> (sum: Option<Self>) {
        self.checked_add(other)
    }

    fn safe_sub(self, other: Self) -> (difference: Option<Self>) {
        self.checked_sub(other)
    }

    fn precedes(self, other: Self) -> (less: bool) {
        self < other
    }
}

impl ZeroOne for u16 {
    fn zero() -> (zero: Self) {
        0
    }

    fn one() -> (one: Self) {
        1
    }
}

impl Number for u16 {
    open spec fn val(self) -> int {
        self as int
    }

    open spec fn lowest() -> int {
        u16::MIN as int
    }

    open spec fn highest() -> int {
        u16::MAX as int
    }

    proof fn numbers(a: Self, b: Self) {
    }
}

impl SafeArith for u16 {
    fn safe_add(self, other: Self) -> (sum: Option<Self>) {
        self.checked_add(other)
    }

    fn safe_sub(self, other: Self) -> (difference: Option<Self>) {
        self.checked_sub(other)
    }

    fn precedes(self, other: Self) -> (less: bool) {
        self < other
    }
}

impl ZeroOne for u32 {
    fn zero() -> (zero: Self) {
        0
    }

    fn one() -> (one: Self) {
        1
    }
}

impl Number for u32 {
    open spec fn val(self) -> int {
        self as int
    }

    open spec fn lowest() -> int {
        u32::MIN as int
    }

    open spec fn highest() -> int {
        u32::MAX as int
    }

    proof fn numbers(a: Self, b: Self) {
    }
}

impl SafeArith for u32 {
    fn safe_add(self, other: Self) -> (sum: Option<Self>) {
        self.checked_add(other)
    }

    fn safe_sub(self, other: Self) -> (difference: Option<Self>) {
        self.checked_sub(other)
    }

    fn precedes(self, other: Self) -> (less: bool) {
        self < other
    }
}

impl ZeroOne for u64 {
    fn zero() -> (zero: Self) {
        0
    }

    fn one() -> (one: Self) {
        1
    }
}

impl Number for u64 {
    open spec fn val(self) -> int {
        self as int
    }

    open spec fn lowest() -> int {
        u64::MIN as int
    }

    open spec fn highest() -> int {
        u64::MAX as int
    }

    proof fn numbers(a: Self, b: Self) {
    }
}

impl SafeArith for u64 {
    fn safe_add(self, other: Self) -> (sum: Option<Self>) {
        self.checked_add(other)
    }

    fn safe_sub(self, other: Self) -> (difference: Option<Self>) {
        self.checked_sub(other)
    }

    fn precedes(self, other: Self) -> (less: bool) {
        self < other
    }
}

impl ZeroOne for usize {
    fn zero() -> (zero: Self) {
        0
    }

    fn one() -> (one: Self) {
        1
    }
}

impl Number for usize {
    open spec fn val(self) -> int {
        self as int
    }

    open spec fn lowest() -> int {
        usize::MIN as int
    }

    open spec fn highest() -> int {
        usize::MAX as int
    }

    proof fn numbers(a: Self, b: Self) {
    }
}

impl SafeArith for usize {
    fn safe_add(self, other: Self) -> (sum: Option<Self>) {
        self.checked_add(other)
    }

    fn safe_sub(self, other: Self) -> (difference: Option<Self>) {
        self.checked_sub(other)
    }

    fn precedes(self, other: Self) -> (less: bool) {
        self < other
    }
}

impl ZeroOne for i8 {
    fn zero() -> (zero: Self) {
        0
    }

    fn one() -> (one: Self) {
        1
    }
}

impl Number for i8 {
    open spec fn val(self) -> int {
        self as int
    }

    open spec fn lowest() -> int {
        i8::MIN as int
    }

    open spec fn highest() -> int {
        i8::MAX as int
    }

    proof fn numbers(a: Self, b: Self) {
    }
}

impl SafeArith for i8 {
    fn safe_add(self, other: Self) -> (sum: Option<Self>) {
        self.checked_add(other)
    }

    fn safe_sub(self, other: Self) -> (difference: Option<Self>) {
        self.checked_sub(other)
    }

    fn precedes(self, other: Self) -> (less: bool) {
        self < other
    }
}

impl ZeroOne for i16 {
    fn zero() -> (zero: Self) {
        0
    }

    fn one() -> (one: Self) {
        1
    }
}

impl Number for i16 {
    open spec fn val(self) -> int {
        self as int
    }

    open spec fn lowest() -> int {
        i16::MIN as int
    }

    open spec fn highest() -> int {
        i16::MAX as int
    }

    proof fn numbers(a: Self, b: Self) {
    }
}

impl SafeArith for i16 {
    fn safe_add(self, other: Self) -> (sum: Option<Self>) {
        self.checked_add(other)
    }

    fn safe_sub(self, other: Self) -> (difference: Option<Self>) {
        self.checked_sub(other)
    }

    fn precedes(self, other: Self) -> (less: bool) {
        self < other
    }
}

impl ZeroOne for i32 {
    fn zero() -> (zero: Self) {
        0
    }

    fn one() -> (one: Self) {
        1
    }
}

impl Number for i32 {
    open spec fn val(self) -> int {
        self as int
    }

    open spec fn lowest() -> int {
        i32::MIN as int
    }

    open spec fn highest() -> int {
        i32::MAX as int
    }

    proof fn numbers(a: Self, b: Self) {
    }
}

impl SafeArith for i32 {
    fn safe_add(self, other: Self) -> (sum: Option<Self>) {
        self.checked_add(other)
    }

    fn safe_sub(self, other: Self) -> (difference: Option<Self>) {
        self.checked_sub(other)
    }

    fn precedes(self, other: Self) -> (less: bool) {
        self < other
    }
}

impl ZeroOne for i64 {
    fn zero() -> (zero: Self) {
        0
    }

    fn one() -> (one: Self) {
        1
    }
}

impl Number for i64 {
    open spec fn val(self) -> int {
        self as int
    }

    open spec fn lowest() -> int {
        i64::MIN as int
    }

    open spec fn highest() -> int {
        i64::MAX as int
    }

    proof fn numbers(a: Self, b: Self) {
    }
}

impl SafeArith for i64 {
    fn safe_add(self, other: Self) -> (sum: Option<Self>) {
        self.checked_add(other)
    }

    fn safe_sub(self, other: Self) -> (difference: Option<Self>) {
        self.checked_sub(other)
    }

    fn precedes(self, other: Self) -> (less: bool) {
        self < other
    }
}

impl ZeroOne for isize {
    fn zero() -> (zero: Self) {
        0
    }

    fn one() -> (one: Self) {
        1
    }
}

impl Number for isize {
    open spec fn val(self) -> int {
        self as int
    }

    open spec fn lowest() -> int {
        isize::MIN as int
    }

    open spec fn highest() -> int {
        isize::MAX as int
    }

    proof fn numbers(a: Self, b: Self) {
    }
}

impl SafeArith for isize {
    fn safe_add(self, other: Self) -> (sum: Option<Self>) {
        self.checked_add(other)
    }

    fn safe_sub(self, other: Self) -> (difference: Option<Self>) {
        self.checked_sub(other)
    }

    fn precedes(self, other: Self) -> (less: bool) {
        self < other
    }
}

/// The first number of a range, if it is bounded below and the number is one of the type.
pub open spec fn start_num<T: Number>(lower: Bound<T>) -> Option<int> {
    match first_from(lower) {
        Some(n) => fit::<T>(n),
        None => None,
    }
}

/// The number after the last one of a range, if it is bounded above and the number is one of the
/// type.
pub open spec fn end_num<T: Number>(upper: Bound<T>) -> Option<int> {
    match end_before(upper) {
        Some(n) => fit::<T>(n),
        None => None,
    }
}

/// How many numbers lie in a range, if it is bounded and not inverted, and its ends and their
/// distance are numbers of the type.
pub open spec fn size_num<T: Number>(lower: Bound<T>, upper: Bound<T>) -> Option<int> {
    match (start_num(lower), end_num(upper)) {
        (Some(start), Some(end)) => if start <= end {
            fit::<T>(end - start)
        } else {
            None
        },
        _ => None,
    }
}

/// Whether the start of a range is not before its end. A range with an unbounded side is never
/// empty.
pub open spec fn empty_between<T: Number>(lower: Bound<T>, upper: Bound<T>) -> bool {
    match (lower, upper) {
        (Bound::Included(s), Bound::Included(e)) => s.val() > e.val(),
        (Bound::Included(s), Bound::Excluded(e)) => s.val() >= e.val(),
        (Bound::Excluded(s), Bound::Included(e)) => s.val() >= e.val(),
        (Bound::Excluded(s), Bound::Excluded(e)) => s.val() >= e.val(),
        _ => false,
    }
}

/// `new` is `bound` with `f` applied to its value.
pub open spec fn mapped<T, R, F: Fn(&T) -> R>(bound: Bound<T>, f: F, new: Bound<R>) -> bool {
    match (bound, new) {
        (Bound::Included(v), Bound::Included(w)) => f.ensures((&v,), w),
        (Bound::Excluded(v), Bound::Excluded(w)) => f.ensures((&v,), w),
        (Bound::Unbounded, Bound::Unbounded) => true,
        _ => false,
    }
}

/// `v` is the value of `bound`.
pub open spec fn bounded_by<T>(bound: Bound<T>, v: T) -> bool {
    bound == Bound::Included(v) || bound == Bound::Excluded(v)
}

fn map_bound<T, R, F: Fn(&T) -> R>(bound: Bound<T>, f: &F) -> (new: Bound<R>)
    requires
        forall|v: T| #[trigger] bounded_by(bound, v) ==> f.requires((&v,)),
    ensures
        mapped(bound, *f, new),
{
    match bound {
        Bound::Included(v) => {
            assert(bounded_by(bound, v));
            Bound::Included(f(&v))
        },
        Bound::Excluded(v) => {
            assert(bounded_by(bound, v));
            Bound::Excluded(f(&v))
        },
        Bound::Unbounded => Bound::Unbounded,
    }
}

/// The range extensions.
pub trait RangeBoundsExt<T: ZeroOne + SafeArith>: Sized {
    /// The start bound of the range.
    spec fn lower(&self) -> Bound<T>;

    /// The end bound of the range.
    spec fn upper(&self) -> Bound<T>;

    /// The bounds of the range are specified. They are not for an inclusive range that was
    /// iterated to exhaustion.
    spec fn settled(&self) -> bool;

    /// Get the start bound of the range.
    fn lower_bound(&self) -> (lower: Bound<T>)
        ensures
            self.settled() ==> lower == self.lower(),
    ;

    /// Get the end bound of the range.
    fn upper_bound(&self) -> (upper: Bound<T>)
        ensures
            self.settled() ==> upper == self.upper(),
    ;

    /// Get the first number of the range.
    ///
    /// Returns `None` if the start is unbounded, or if normalizing an excluded start bound
    /// (`start + 1`) would overflow.
    fn start(&self) -> (start: Option<T>)
        ensures
            self.settled() ==> num(start) == start_num(self.lower()),
    {
        let bound = self.lower_bound();
        match bound {
            Bound::Included(v) => {
                proof {
                    T::numbers(v, v);
                }
                Some(v)
            },
            Bound::Excluded(v) => v.safe_add(T::one()),
            Bound::Unbounded => None,
        }
    }

    /// Get the number after the last one of the range.
    ///
    /// Returns `None` if the end is unbounded, or if normalizing an inclusive end bound
    /// (`end + 1`) would overflow.
    fn end(&self) -> (end: Option<T>)
        ensures
            self.settled() ==> num(end) == end_num(self.upper()),
    {
        let bound = self.upper_bound();
        match bound {
            Bound::Included(v) => v.safe_add(T::one()),
            Bound::Excluded(v) => {
                proof {
                    T::numbers(v, v);
                }
                Some(v)
            },
            Bound::Unbounded => None,
        }
    }

    /// Get the first number of the range, or `bound` where there is none.
    fn start_with_bound(&self, bound: T) -> (start: T)
        ensures
            self.settled() ==> start.val() == start_num(self.lower()).unwrap_or(bound.val()),
    {
        match self.start() {
            Some(start) => start,
            None => bound,
        }
    }

    /// Get the number after the last one of the range, or `bound` where there is none.
    fn end_with_bound(&self, bound: T) -> (end: T)
        ensures
            self.settled() ==> end.val() == end_num(self.upper()).unwrap_or(bound.val()),
    {
        match self.end() {
            Some(end) => end,
            None => bound,
        }
    }

    /// Get the new range with the given range bounds.
    fn bounds(&self, range: Range<T>) -> (bounds: Range<T>)
        ensures
            self.settled() ==> {
                &&& bounds.start.val() == start_num(self.lower()).unwrap_or(range.start.val())
                &&& bounds.end.val() == end_num(self.upper()).unwrap_or(range.end.val())
            },
    {
        let start = self.start_with_bound(range.start);
        let end = self.end_with_bound(range.end);
        start..end
    }

    /// Get the range size.
    ///
    /// Returns `None` if the size cannot be represented, i.e. when the range is unbounded on
    /// either side, inverted (`start > end`), or when an inclusive end at the maximum value of `T`
    /// would overflow the half-open boundary. It neither panics nor wraps.
    fn size(&self) -> (size: Option<T>)
        ensures
            self.settled() ==> num(size) == size_num(self.lower(), self.upper()),
    {
        match (self.start(), self.end()) {
            (Some(start), Some(end)) => {
                if end.precedes(start) {
                    None
                } else {
                    end.safe_sub(start)
                }
            },
            _ => None,
        }
    }

    /// Check if the range is empty.
    ///
    /// The raw bounds are compared directly, so no arithmetic is performed and overflow cannot
    /// corrupt the result. Ranges with at least one unbounded side are considered non-empty.
    fn is_empty(&self) -> (empty: bool)
        ensures
            self.settled() ==> empty == empty_between(self.lower(), self.upper()),
    {
        match (self.lower_bound(), self.upper_bound()) {
            (Bound::Included(s), Bound::Included(e)) => e.precedes(s),
            (Bound::Included(s), Bound::Excluded(e)) => !s.precedes(e),
            (Bound::Excluded(s), Bound::Included(e)) => !s.precedes(e),
            (Bound::Excluded(s), Bound::Excluded(e)) => !s.precedes(e),
            _ => match self.size() {
                Some(len) => !len.precedes(T::zero()) && !T::zero().precedes(len),
                None => false,
            },
        }
    }

    /// Check if the range is a full range.
    fn is_full(&self) -> (full: bool)
        ensures
            self.settled() ==> full == (self.lower() is Unbounded && self.upper() is Unbounded),
    {
        match (self.lower_bound(), self.upper_bound()) {
            (Bound::Unbounded, Bound::Unbounded) => true,
            _ => false,
        }
    }

    /// Map the range with the given method.
    fn map<R, F: Fn(&T) -> R>(&self, f: F) -> (r: (Bound<R>, Bound<R>))
        requires
            self.settled() ==> forall|v: T| #[trigger]
                bounded_by(self.lower(), v) ==> f.requires((&v,)),
            self.settled() ==> forall|v: T| #[trigger]
                bounded_by(self.upper(), v) ==> f.requires((&v,)),
            !self.settled() ==> forall|v: T| #[trigger] f.requires((&v,)),
        ensures
            self.settled() ==> mapped(self.lower(), f, r.0) && mapped(self.upper(), f, r.1),
    {
        let lower = self.lower_bound();
        let upper = self.upper_bound();
        (map_bound(lower, &f), map_bound(upper, &f))
    }
}

impl<T: ZeroOne + SafeArith> RangeBoundsExt<T> for Range<T> {
    open spec fn lower(&self) -> Bound<T> {
        Bound::Included(self.start)
    }

    open spec fn upper(&self) -> Bound<T> {
        Bound::Excluded(self.end)
    }

    open spec fn settled(&self) -> bool {
        true
    }

    fn lower_bound(&self) -> (lower: Bound<T>) {
        Bound::Included(self.start)
    }

    fn upper_bound(&self) -> (upper: Bound<T>) {
        Bound::Excluded(self.end)
    }
}

impl<T: ZeroOne + SafeArith> RangeBoundsExt<T> for RangeFrom<T> {
    open spec fn lower(&self) -> Bound<T> {
        Bound::Included(self.start)
    }

    open spec fn upper(&self) -> Bound<T> {
        Bound::Unbounded
    }

    open spec fn settled(&self) -> bool {
        true
    }

    fn lower_bound(&self) -> (lower: Bound<T>) {
        Bound::Included(self.start)
    }

    fn upper_bound(&self) -> (upper: Bound<T>) {
        Bound::Unbounded
    }
}

impl<T: ZeroOne + SafeArith> RangeBoundsExt<T> for RangeTo<T> {
    open spec fn lower(&self) -> Bound<T> {
        Bound::Unbounded
    }

    open spec fn upper(&self) -> Bound<T> {
        Bound::Excluded(self.end)
    }

    open spec fn settled(&self) -> bool {
        true
    }

    fn lower_bound(&self) -> (lower: Bound<T>) {
        Bound::Unbounded
    }

    fn upper_bound(&self) -> (upper: Bound<T>) {
        Bound::Excluded(self.end)
    }
}

impl<T: ZeroOne + SafeArith> RangeBoundsExt<T> for RangeToInclusive<T> {
    open spec fn lower(&self) -> Bound<T> {
        Bound::Unbounded
    }

    open spec fn upper(&self) -> Bound<T> {
        Bound::Included(self.end)
    }

    open spec fn settled(&self) -> bool {
        true
    }

    fn lower_bound(&self) -> (lower: Bound<T>) {
        Bound::Unbounded
    }

    fn upper_bound(&self) -> (upper: Bound<T>) {
        Bound::Included(self.end)
    }
}

impl<T: ZeroOne + SafeArith> RangeBoundsExt<T> for RangeFull {
    open spec fn lower(&self) -> Bound<T> {
        Bound::Unbounded
    }

    open spec fn upper(&self) -> Bound<T> {
        Bound::Unbounded
    }

    open spec fn settled(&self) -> bool {
        true
    }

    fn lower_bound(&self) -> (lower: Bound<T>) {
        Bound::Unbounded
    }

    fn upper_bound(&self) -> (upper: Bound<T>) {
        Bound::Unbounded
    }
}

impl<T: ZeroOne + SafeArith> RangeBoundsExt<T> for (Bound<T>, Bound<T>) {
    open spec fn lower(&self) -> Bound<T> {
        self.0
    }

    open spec fn upper(&self) -> Bound<T> {
        self.1
    }

    open spec fn settled(&self) -> bool {
        true
    }

    fn lower_bound(&self) -> (lower: Bound<T>) {
        self.0
    }

    fn upper_bound(&self) -> (upper: Bound<T>) {
        self.1
    }
}

impl<T: ZeroOne + SafeArith> RangeBoundsExt<T> for RangeInclusive<T> {
    open spec fn lower(&self) -> Bound<T> {
        Bound::Included(self@.start)
    }

    open spec fn upper(&self) -> Bound<T> {
        Bound::Included(self@.end)
    }

    open spec fn settled(&self) -> bool {
        !self@.exhausted
    }

    fn lower_bound(&self) -> (lower: Bound<T>) {
        inclusive_lower(self)
    }

    fn upper_bound(&self) -> (upper: Bound<T>) {
        inclusive_upper(self)
    }
}

/// The bound of the number behind a reference.
pub open spec fn spec_by_value<T>(bound: Bound<&T>) -> Bound<T> {
    match bound {
        Bound::Included(v) => Bound::Included(*v),
        Bound::Excluded(v) => Bound::Excluded(*v),
        Bound::Unbounded => Bound::Unbounded,
    }
}

fn by_value<T: Number>(bound: Bound<&T>) -> (r: Bound<T>)
    ensures
        r == spec_by_value(bound),
{
    match bound {
        Bound::Included(v) => Bound::Included(*v),
        Bound::Excluded(v) => Bound::Excluded(*v),
        Bound::Unbounded => Bound::Unbounded,
    }
}

impl<'a, T: ZeroOne + SafeArith> RangeBoundsExt<T> for Range<&'a T> {
    open spec fn lower(&self) -> Bound<T> {
        Bound::Included(*self.start)
    }

    open spec fn upper(&self) -> Bound<T> {
        Bound::Excluded(*self.end)
    }

    open spec fn settled(&self) -> bool {
        true
    }

    fn lower_bound(&self) -> (lower: Bound<T>) {
        Bound::Included(*self.start)
    }

    fn upper_bound(&self) -> (upper: Bound<T>) {
        Bound::Excluded(*self.end)
    }
}

impl<'a, T: ZeroOne + SafeArith> RangeBoundsExt<T> for RangeFrom<&'a T> {
    open spec fn lower(&self) -> Bound<T> {
        Bound::Included(*self.start)
    }

    open spec fn upper(&self) -> Bound<T> {
        Bound::Unbounded
    }

    open spec fn settled(&self) -> bool {
        true
    }

    fn lower_bound(&self) -> (lower: Bound<T>) {
        Bound::Included(*self.start)
    }

    fn upper_bound(&self) -> (upper: Bound<T>) {
        Bound::Unbounded
    }
}

impl<'a, T: ZeroOne + SafeArith> RangeBoundsExt<T> for RangeTo<&'a T> {
    open spec fn lower(&self) -> Bound<T> {
        Bound::Unbounded
    }

    open spec fn upper(&self) -> Bound<T> {
        Bound::Excluded(*self.end)
    }

    open spec fn settled(&self) -> bool {
        true
    }

    fn lower_bound(&self) -> (lower: Bound<T>) {
        Bound::Unbounded
    }

    fn upper_bound(&self) -> (upper: Bound<T>) {
        Bound::Excluded(*self.end)
    }
}

impl<'a, T: ZeroOne + SafeArith> RangeBoundsExt<T> for RangeToInclusive<&'a T> {
    open spec fn lower(&self) -> Bound<T> {
        Bound::Unbounded
    }

    open spec fn upper(&self) -> Bound<T> {
        Bound::Included(*self.end)
    }

    open spec fn settled(&self) -> bool {
        true
    }

    fn lower_bound(&self) -> (lower: Bound<T>) {
        Bound::Unbounded
    }

    fn upper_bound(&self) -> (upper: Bound<T>) {
        Bound::Included(*self.end)
    }
}

impl<'a, T: ZeroOne + SafeArith> RangeBoundsExt<T> for (Bound<&'a T>, Bound<&'a T>) {
    open spec fn lower(&self) -> Bound<T> {
        spec_by_value(self.0)
    }

    open spec fn upper(&self) -> Bound<T> {
        spec_by_value(self.1)
    }

    open spec fn settled(&self) -> bool {
        true
    }

    fn lower_bound(&self) -> (lower: Bound<T>) {
        by_value(self.0)
    }

    fn upper_bound(&self) -> (upper: Bound<T>) {
        by_value(self.1)
    }
}

impl<'a, T: ZeroOne + SafeArith> RangeBoundsExt<T> for RangeInclusive<&'a T> {
    open spec fn lower(&self) -> Bound<T> {
        Bound::Included(*self@.start)
    }

    open spec fn upper(&self) -> Bound<T> {
        Bound::Included(*self@.end)
    }

    open spec fn settled(&self) -> bool {
        !self@.exhausted
    }

    fn lower_bound(&self) -> (lower: Bound<T>) {
        by_value(inclusive_lower(self))
    }

    fn upper_bound(&self) -> (upper: Bound<T>) {
        by_value(inclusive_upper(self))
    }
}

/// The number `n` lies between the bounds.
pub open spec fn between<T: Number>(lower: Bound<T>, n: int, upper: Bound<T>) -> bool {
    &&& match first_from(lower) {
        Some(first) => first <= n,
        None => true,
    }
    &&& match end_before(upper) {
        Some(end) => n < end,
        None => true,
    }
}

/// The start of a range is the first number behind its start bound. There is none exactly if the range
/// is unbounded below, or if its excluded start is the highest number of the type.
pub proof fn start_is_first_number<T: Number>(lower: Bound<T>, n: int)
    ensures
        match start_num(lower) {
            Some(start) => match lower {
                Bound::Included(v) => v.val() <= n <==> start <= n,
                Bound::Excluded(v) => v.val() < n <==> start <= n,
                Bound::Unbounded => false,
            },
            None => match lower {
                Bound::Included(_) => false,
                Bound::Excluded(v) => v.val() == T::highest(),
                Bound::Unbounded => true,
            },
        },
        start_num(lower) matches Some(start) ==> T::lowest() <= start <= T::highest(),
{
    match lower {
        Bound::Included(v) => T::numbers(v, v),
        Bound::Excluded(v) => T::numbers(v, v),
        Bound::Unbounded => {},
    }
}

/// The end of a range is the number after the last one before its end bound. There is none exactly if
/// the range is unbounded above, or if its included end is the highest number of the type.
pub proof fn end_is_behind_last_number<T: Number>(upper: Bound<T>, n: int)
    ensures
        match end_num(upper) {
            Some(end) => match upper {
                Bound::Included(v) => n <= v.val() <==> n < end,
                Bound::Excluded(v) => n < v.val() <==> n < end,
                Bound::Unbounded => false,
            },
            None => match upper {
                Bound::Included(v) => v.val() == T::highest(),
                Bound::Excluded(_) => false,
                Bound::Unbounded => true,
            },
        },
        end_num(upper) matches Some(end) ==> T::lowest() <= end <= T::highest(),
{
    match upper {
        Bound::Included(v) => T::numbers(v, v),
        Bound::Excluded(v) => T::numbers(v, v),
        Bound::Unbounded => {},
    }
}

/// The size of a range is the distance of its ends. There is none exactly if it lacks an end, or its
/// end lies before its start, or the distance is not a number of the type.
pub proof fn size_is_distance<T: Number>(lower: Bound<T>, upper: Bound<T>)
    ensures
        match (start_num(lower), end_num(upper)) {
            (Some(start), Some(end)) => match size_num(lower, upper) {
                Some(size) => start + size == end && size >= 0,
                None => end < start || end - start > T::highest() || end - start < T::lowest(),
            },
            _ => size_num(lower, upper) is None,
        },
        size_num(lower, upper) matches Some(size) ==> T::lowest() <= size <= T::highest(),
{
}

/// A range is empty exactly if it is bounded on both sides, and not even the half of a number lies
/// between its bounds. Otherwise the number returned has its half there.
pub proof fn emptiness_leaves_no_gap<T: Number>(lower: Bound<T>, upper: Bound<T>, twice: int) -> (
    witness: int)
    ensures
        ({
            let between = |n: int|
                {
                    &&& match lower {
                        Bound::Included(v) => 2 * v.val() <= n,
                        Bound::Excluded(v) => 2 * v.val() < n,
                        Bound::Unbounded => true,
                    }
                    &&& match upper {
                        Bound::Included(v) => n <= 2 * v.val(),
                        Bound::Excluded(v) => n < 2 * v.val(),
                        Bound::Unbounded => true,
                    }
                };
            &&& empty_between(lower, upper) ==> !between(twice)
            &&& !empty_between(lower, upper) ==> between(witness)
        }),
        lower is Unbounded || upper is Unbounded ==> !empty_between(lower, upper),
{
    match (lower, upper) {
        (Bound::Included(v), _) => 2 * v.val(),
        (Bound::Excluded(v), _) => 2 * v.val() + 1,
        (_, Bound::Included(v)) => 2 * v.val(),
        (_, Bound::Excluded(v)) => 2 * v.val() - 1,
        _ => 0,
    }
}

/// The bounds of the ranges are those that they are written with.
pub proof fn ranges_have_their_bounds<T: ZeroOne + SafeArith>(
    half_open: Range<T>,
    upward: RangeFrom<T>,
    downward: RangeTo<T>,
    downward_closed: RangeToInclusive<T>,
    closed: RangeInclusive<T>,
    all: RangeFull,
    pair: (Bound<T>, Bound<T>),
)
    ensures
        half_open.lower() == Bound::Included(half_open.start),
        half_open.upper() == Bound::Excluded(half_open.end),
        upward.lower() == Bound::Included(upward.start),
        RangeBoundsExt::<T>::upper(&upward) is Unbounded,
        RangeBoundsExt::<T>::lower(&downward) is Unbounded,
        downward.upper() == Bound::Excluded(downward.end),
        RangeBoundsExt::<T>::lower(&downward_closed) is Unbounded,
        downward_closed.upper() == Bound::Included(downward_closed.end),
        closed.lower() == Bound::Included(closed@.start),
        closed.upper() == Bound::Included(closed@.end),
        RangeBoundsExt::<T>::lower(&all) is Unbounded,
        RangeBoundsExt::<T>::upper(&all) is Unbounded,
        pair.lower() == pair.0,
        pair.upper() == pair.1,
        RangeBoundsExt::<T>::settled(&half_open),
        RangeBoundsExt::<T>::settled(&upward),
        RangeBoundsExt::<T>::settled(&downward),
        RangeBoundsExt::<T>::settled(&downward_closed),
        RangeBoundsExt::<T>::settled(&all),
        RangeBoundsExt::<T>::settled(&pair),
        RangeBoundsExt::<T>::settled(&closed) <==> !closed@.exhausted,
{
}

/// The bounds of ranges of references are those of the numbers behind them.
pub proof fn reference_ranges_have_their_bounds<'a, T: ZeroOne + SafeArith>(
    half_open: Range<&'a T>,
    upward: RangeFrom<&'a T>,
    downward: RangeTo<&'a T>,
    downward_closed: RangeToInclusive<&'a T>,
    closed: RangeInclusive<&'a T>,
    pair: (Bound<&'a T>, Bound<&'a T>),
)
    ensures
        RangeBoundsExt::<T>::lower(&half_open) == Bound::Included(*half_open.start),
        RangeBoundsExt::<T>::upper(&half_open) == Bound::Excluded(*half_open.end),
        RangeBoundsExt::<T>::lower(&upward) == Bound::Included(*upward.start),
        RangeBoundsExt::<T>::upper(&upward) is Unbounded,
        RangeBoundsExt::<T>::lower(&downward) is Unbounded,
        RangeBoundsExt::<T>::upper(&downward) == Bound::Excluded(*downward.end),
        RangeBoundsExt::<T>::lower(&downward_closed) is Unbounded,
        RangeBoundsExt::<T>::upper(&downward_closed) == Bound::Included(*downward_closed.end),
        RangeBoundsExt::<T>::lower(&closed) == Bound::Included(*closed@.start),
        RangeBoundsExt::<T>::upper(&closed) == Bound::Included(*closed@.end),
        pair.0 matches Bound::Included(v) ==> RangeBoundsExt::<T>::lower(&pair) == Bound::Included(
            *v,
        ),
        pair.0 matches Bound::Excluded(v) ==> RangeBoundsExt::<T>::lower(&pair) == Bound::Excluded(
            *v,
        ),
        pair.0 is Unbounded ==> RangeBoundsExt::<T>::lower(&pair) is Unbounded,
        pair.1 matches Bound::Included(v) ==> RangeBoundsExt::<T>::upper(&pair) == Bound::Included(
            *v,
        ),
        pair.1 matches Bound::Excluded(v) ==> RangeBoundsExt::<T>::upper(&pair) == Bound::Excluded(
            *v,
        ),
        pair.1 is Unbounded ==> RangeBoundsExt::<T>::upper(&pair) is Unbounded,
        RangeBoundsExt::<T>::settled(&half_open),
        RangeBoundsExt::<T>::settled(&upward),
        RangeBoundsExt::<T>::settled(&downward),
        RangeBoundsExt::<T>::settled(&downward_closed),
        RangeBoundsExt::<T>::settled(&pair),
        RangeBoundsExt::<T>::settled(&closed) <==> !closed@.exhausted,
{
}

/// To map a range keeps the kinds of its bounds.
pub proof fn mapping_keeps_bounds<T, R, F: Fn(&T) -> R>(bound: Bound<T>, f: F, new: Bound<R>)
    requires
        mapped(bound, f, new),
    ensures
        bound is Included <==> new is Included,
        bound is Excluded <==> new is Excluded,
        bound is Unbounded <==> new is Unbounded,
        bound matches Bound::Included(v) ==> (new matches Bound::Included(w) && f.ensures((&v,), w)),
        bound matches Bound::Excluded(v) ==> (new matches Bound::Excluded(w) && f.ensures((&v,), w)),
{
}

/// Arithmetic gives a number exactly if it lies within the type, and the right one.
pub proof fn numbers_fit_their_type<T: Number>(n: int, v: Option<T>)
    requires
        num(v) == fit::<T>(n),
    ensures
        v is Some <==> T::lowest() <= n <= T::highest(),
        v matches Some(w) ==> w.val() == n,
{
}

/// The number of an integer is the integer itself, and those of its type lie between the lowest and the
/// highest of them.
pub proof fn integers_are_numbers(
    a: u8,
    b: u16,
    c: u32,
    d: u64,
    e: usize,
    f: i8,
    g: i16,
    h: i32,
    i: i64,
    j: isize,
)
    ensures
        a.val() == a && <u8 as Number>::lowest() == u8::MIN && <u8 as Number>::highest() == u8::MAX,
        b.val() == b && <u16 as Number>::lowest() == u16::MIN && <u16 as Number>::highest()
            == u16::MAX,
        c.val() == c && <u32 as Number>::lowest() == u32::MIN && <u32 as Number>::highest()
            == u32::MAX,
        d.val() == d && <u64 as Number>::lowest() == u64::MIN && <u64 as Number>::highest()
            == u64::MAX,
        e.val() == e && <usize as Number>::lowest() == usize::MIN && <usize as Number>::highest()
            == usize::MAX,
        f.val() == f && <i8 as Number>::lowest() == i8::MIN && <i8 as Number>::highest() == i8::MAX,
        g.val() == g && <i16 as Number>::lowest() == i16::MIN && <i16 as Number>::highest()
            == i16::MAX,
        h.val() == h && <i32 as Number>::lowest() == i32::MIN && <i32 as Number>::highest()
            == i32::MAX,
        i.val() == i && <i64 as Number>::lowest() == i64::MIN && <i64 as Number>::highest()
            == i64::MAX,
        j.val() == j && <isize as Number>::lowest() == isize::MIN && <isize as Number>::highest()
            == isize::MAX,
{
}

/// No number lies in an empty range.
pub proof fn empty_range_holds_nothing<T: Number>(lower: Bound<T>, upper: Bound<T>, n: int)
    requires
        empty_between(lower, upper),
    ensures
        !between(lower, n, upper),
{
}

/// A bounded range with an inclusive start that is not empty holds its start.
pub proof fn nonempty_range_holds_its_start<T: Number>(start: T, upper: Bound<T>)
    requires
        !empty_between(Bound::Included(start), upper),
    ensures
        between(Bound::Included(start), start.val(), upper),
{
}

/// A range of a known size holds exactly that many numbers, one after the other.
pub proof fn size_counts_the_numbers<T: Number>(lower: Bound<T>, upper: Bound<T>, n: int)
    requires
        size_num(lower, upper) is Some,
    ensures
        start_num(lower) is Some,
        ({
            let start = start_num(lower).unwrap();
            let size = size_num(lower, upper).unwrap();
            &&& 0 <= size
            &&& between(lower, n, upper) <==> start <= n < start + size
        }),
{
}

/// An inverted range has no size, and holds nothing.
pub proof fn inverted_range_has_no_size<T: Number>(start: T, end: T)
    requires
        start.val() > end.val(),
    ensures
        size_num(Bound::Included(start), Bound::Excluded(end)) is None,
        empty_between(Bound::Included(start), Bound::Excluded(end)),
        empty_between(Bound::Included(start), Bound::Included(end)),
{
    T::numbers(start, end);
    T::numbers(end, start);
}

} // verus!
