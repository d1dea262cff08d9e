//! Number tokens.
use vstd::prelude::*;
use vstd::slice::slice_subrange;

verus! {

/// A malformed number.
#[derive(Debug, Clone, Copy, PartialEq, Eq, Structural)]
pub struct Error;

#[derive(Debug, Clone, Copy, PartialEq, Eq, Structural)]
pub enum Sign {
    Positive,
    Negative,
}

#[derive(Debug, Clone, Copy, PartialEq, Eq, Structural)]
pub enum Signedness {
    Unsigned,
    Signed,
}

#[derive(Debug, Clone, Copy, PartialEq, Eq, Structural)]
pub enum IntType {
    Int8,
    Int16,
    Int32,
    Int64,
}

#[derive(Debug, Clone, Copy, PartialEq, Eq, Structural)]
pub enum FloatType {
    Float32,
    Float64,
}

/// The digits of an integer literal, with any underscores, in the base that its prefix names.
#[derive(Debug, Clone, Copy, PartialEq)]
pub enum IntBytes<'src> {
    Denary(&'src [u8]),
    Binary(&'src [u8]),
    Hex(&'src [u8]),
}

#[derive(Debug, Clone, Copy, PartialEq)]
pub struct Int<'src> {
    pub sign: Sign,
    pub signedness: Signedness,
    pub ty: IntType,
    pub digits: IntBytes<'src>,
}

#[derive(Debug, Clone, Copy, PartialEq)]
pub struct Float<'src> {
    pub sign: Sign,
    pub ty: FloatType,
    pub integer_part: Option<&'src [u8]>,
    pub fractional_part: Option<&'src [u8]>,
    pub exponent_part: Option<(Sign, &'src [u8])>,
}

#[derive(Debug, Clone, Copy, PartialEq)]
pub enum Number<'src> {
    Int(Int<'src>),
    Float(Float<'src>),
}

/// The digits of an integer literal as bytes.
pub enum DigitsView {
    Denary(Seq<u8>),
    Binary(Seq<u8>),
    Hex(Seq<u8>),
}

pub struct IntView {
    pub sign: Sign,
    pub signedness: Signedness,
    pub ty: IntType,
    pub digits: DigitsView,
}

pub struct FloatView {
    pub sign: Sign,
    pub ty: FloatType,
    pub integer_part: Option<Seq<u8>>,
    pub fractional_part: Option<Seq<u8>>,
    pub exponent_part: Option<(Sign, Seq<u8>)>,
}

pub enum NumberView {
    Int(IntView),
    Float(FloatView),
}

impl<'src> View for IntBytes<'src> {
    type V = DigitsView;

    open spec fn view(&self) -> DigitsView {
        match self {
            IntBytes::Denary(b) => DigitsView::Denary(b@),
            IntBytes::Binary(b) => DigitsView::Binary(b@),
            IntBytes::Hex(b) => DigitsView::Hex(b@),
        }
    }
}

impl<'src> View for Int<'src> {
    type V = IntView;

    open spec fn view(&self) -> IntView {
        IntView { sign: self.sign, signedness: self.signedness, ty: self.ty, digits: self.digits@ }
    }
}

pub open spec fn opt_bytes_view(o: Option<&[u8]>) -> Option<Seq<u8>> {
    match o {
        Some(b) => Some(b@),
        None => None,
    }
}

impl<'src> View for Float<'src> {
    type V = FloatView;

    open spec fn view(&self) -> FloatView {
        FloatView {
            sign: self.sign,
            ty: self.ty,
            integer_part: opt_bytes_view(self.integer_part),
            fractional_part: opt_bytes_view(self.fractional_part),
            exponent_part: match self.exponent_part {
                Some((s, b)) => Some((s, b@)),
                None => None,
            },
        }
    }
}

impl<'src> View for Number<'src> {
    type V = NumberView;

    open spec fn view(&self) -> NumberView {
        match self {
            Number::Int(i) => NumberView::Int(i@),
            Number::Float(f) => NumberView::Float(f@),
        }
    }
}

pub open spec fn is_digit(b: u8) -> bool {
    0x30 /* '0' */ <= b <= 0x39 /* '9' */
}

pub open spec fn is_hex_digit(b: u8) -> bool {
    is_digit(b) || 0x61 /* 'a' */ <= b <= 0x66 /* 'f' */ || 0x41 /* 'A' */ <= b <= 0x46 /* 'F' */
}

pub open spec fn is_binary_digit(b: u8) -> bool {
    b == 0x30 /* '0' */ || b == 0x31 /* '1' */
}

/// The digits that a sequence may hold.
#[derive(Debug, Clone, Copy, PartialEq, Eq, Structural)]
pub enum Base {
    Binary,
    Denary,
    Hex,
}

/// `b` may stand in a digit sequence of base `base`: a digit of the base, or an underscore.
pub open spec fn in_sequence(base: Base, b: u8) -> bool {
    b == 0x5f /* '_' */ || match base {
        Base::Binary => is_binary_digit(b),
        Base::Denary => is_digit(b),
        Base::Hex => is_hex_digit(b),
    }
}

/// The length of the longest run of bytes that may stand in a sequence of `base`, from `p`.
pub open spec fn run_len(s: Seq<u8>, p: int, base: Base) -> nat
    decreases s.len() - p,
{
    if 0 <= p < s.len() && in_sequence(base, s[p]) {
        1 + run_len(s, p + 1, base)
    } else {
        0
    }
}

/// The digit sequence of `base` from `p`: the longest run, less one trailing underscore; and
/// the position after it.
pub open spec fn digit_sequence(s: Seq<u8>, p: int, base: Base) -> (Seq<u8>, int) {
    let n = run_len(s, p, base);
    let k = if n > 0 && s[p + n - 1] == 0x5f /* '_' */ {
        n - 1
    } else {
        n as int
    };
    (s.subrange(p, p + k), p + k)
}

pub proof fn lemma_run_len_bounds(s: Seq<u8>, p: int, base: Base)
    requires
        0 <= p <= s.len(),
    ensures
        p + run_len(s, p, base) <= s.len(),
        forall|i: int| p <= i < p + run_len(s, p, base) ==> in_sequence(base, #[trigger] s[i]),
        p + run_len(s, p, base) < s.len() ==> !in_sequence(base, s[p + run_len(s, p, base)]),
    decreases s.len() - p,
{
    if p < s.len() && in_sequence(base, s[p]) {
        lemma_run_len_bounds(s, p + 1, base);
    }
}

/// An optional minus sign at `p`.
pub open spec fn spec_sign(s: Seq<u8>, p: int) -> (Sign, int) {
    if 0 <= p < s.len() && s[p] == 0x2d /* '-' */ {
        (Sign::Negative, p + 1)
    } else {
        (Sign::Positive, p)
    }
}

/// The integer type that a suffix letter names.
pub open spec fn int_type_of(b: u8) -> Option<IntType> {
    if b == 0x62 /* 'b' */ || b == 0x42 /* 'B' */ {
        Some(IntType::Int8)
    } else if b == 0x73 /* 's' */ || b == 0x53 /* 'S' */ {
        Some(IntType::Int16)
    } else if b == 0x69 /* 'i' */ || b == 0x49 /* 'I' */ {
        Some(IntType::Int32)
    } else if b == 0x6c /* 'l' */ || b == 0x4c /* 'L' */ {
        Some(IntType::Int64)
    } else {
        None
    }
}

/// The signedness that a suffix letter names.
pub open spec fn signedness_of(b: u8) -> Option<Signedness> {
    if b == 0x73 /* 's' */ || b == 0x53 /* 'S' */ {
        Some(Signedness::Signed)
    } else if b == 0x75 /* 'u' */ || b == 0x55 /* 'U' */ {
        Some(Signedness::Unsigned)
    } else {
        None
    }
}

/// The floating-point type that a suffix letter names.
pub open spec fn float_type_of(b: u8) -> Option<FloatType> {
    if b == 0x66 /* 'f' */ || b == 0x46 /* 'F' */ {
        Some(FloatType::Float32)
    } else if b == 0x64 /* 'd' */ || b == 0x44 /* 'D' */ {
        Some(FloatType::Float64)
    } else {
        None
    }
}

/// The suffix letters of number literals, either case: `b` a byte, `s` a short, `i` an int,
/// `l` a long; `s` also marks a signed and `u` an unsigned integer before its type letter; `f`
/// a float and `d` a double. No other byte is a suffix.
pub proof fn law_suffix_letters(b: u8)
    ensures
        int_type_of(b) == Some(IntType::Int8) <==> (b == 0x62 || b == 0x42),
        int_type_of(b) == Some(IntType::Int16) <==> (b == 0x73 || b == 0x53),
        int_type_of(b) == Some(IntType::Int32) <==> (b == 0x69 || b == 0x49),
        int_type_of(b) == Some(IntType::Int64) <==> (b == 0x6c || b == 0x4c),
        signedness_of(b) == Some(Signedness::Signed) <==> (b == 0x73 || b == 0x53),
        signedness_of(b) == Some(Signedness::Unsigned) <==> (b == 0x75 || b == 0x55),
        float_type_of(b) == Some(FloatType::Float32) <==> (b == 0x66 || b == 0x46),
        float_type_of(b) == Some(FloatType::Float64) <==> (b == 0x64 || b == 0x44),
        int_type_of(b) is None <==> !(b == 0x62 || b == 0x42 || b == 0x73 || b == 0x53 || b == 0x69 || b == 0x49 || b == 0x6c || b == 0x4c),
        float_type_of(b) is None <==> !(b == 0x66 || b == 0x46 || b == 0x64 || b == 0x44),
        signedness_of(b) is None <==> !(b == 0x73 || b == 0x53 || b == 0x75 || b == 0x55),
{
}

/// The suffix of an integer at `p`: a signedness letter and a type letter, or a type letter
/// alone (signed), or nothing (a signed 32-bit integer).
pub open spec fn spec_int_type(s: Seq<u8>, p: int) -> ((Signedness, IntType), int) {
    if 0 <= p && p + 1 < s.len() && signedness_of(s[p]) is Some && int_type_of(s[p + 1]) is Some {
        ((signedness_of(s[p]).unwrap(), int_type_of(s[p + 1]).unwrap()), p + 2)
    } else if 0 <= p < s.len() && int_type_of(s[p]) is Some {
        ((Signedness::Signed, int_type_of(s[p]).unwrap()), p + 1)
    } else {
        ((Signedness::Signed, IntType::Int32), p)
    }
}

/// The suffix of a floating-point number at `p`; a 64-bit number where there is none.
pub open spec fn spec_float_type(s: Seq<u8>, p: int) -> (FloatType, int) {
    if 0 <= p < s.len() && float_type_of(s[p]) is Some {
        (float_type_of(s[p]).unwrap(), p + 1)
    } else {
        (FloatType::Float64, p)
    }
}

/// An optional exponent at `p`: `e` or `E`, an optional minus sign, then denary digits.
pub open spec fn spec_exponent(s: Seq<u8>, p: int) -> (Option<(Sign, Seq<u8>)>, int) {
    if 0 <= p && p + 1 < s.len() && (s[p] == 0x65 /* 'e' */ || s[p] == 0x45 /* 'E' */) && is_digit(s[p + 1]) {
        let (d, q) = digit_sequence(s, p + 1, Base::Denary);
        (Some((Sign::Positive, d)), q)
    } else if 0 <= p && p + 2 < s.len() && (s[p] == 0x65 /* 'e' */ || s[p] == 0x45 /* 'E' */) && s[p + 1] == 0x2d /* '-' */
        && is_digit(s[p + 2]) {
        let (d, q) = digit_sequence(s, p + 2, Base::Denary);
        (Some((Sign::Negative, d)), q)
    } else {
        (None, p)
    }
}

/// `0`, `marker` and a digit of `base` stand at `p`.
pub open spec fn prefix_at(s: Seq<u8>, p: int, marker: u8, base: Base) -> bool {
    0 <= p && p + 2 < s.len() && s[p] == 0x30 /* '0' */ && s[p + 1] == marker && in_sequence(base, s[p + 2])
        && s[p + 2] != 0x5f /* '_' */
}

/// A denary integer or floating-point number that starts with a digit at `p`.
/// A point, an exponent or a floating-point suffix letter (`0f`, `3d`) makes
/// it a floating-point number.
pub open spec fn spec_decimal(s: Seq<u8>, p: int, sign: Sign) -> (NumberView, int) {
    let (integer_part, p1) = digit_sequence(s, p, Base::Denary);
    let has_point = 0 <= p1 < s.len() && s[p1] == 0x2e /* '.' */;
    let (fractional_part, p2) = if has_point {
        if p1 + 1 < s.len() && is_digit(s[p1 + 1]) {
            let (f, q) = digit_sequence(s, p1 + 1, Base::Denary);
            (Some(f), q)
        } else {
            (None, p1 + 1)
        }
    } else {
        (None, p1)
    };
    let (exponent_part, p3) = spec_exponent(s, p2);
    let suffixed = 0 <= p3 < s.len() && float_type_of(s[p3]) is Some;
    if has_point || exponent_part is Some || suffixed {
        let (ty, p4) = spec_float_type(s, p3);
        (NumberView::Float(FloatView { sign, ty, integer_part: Some(integer_part), fractional_part, exponent_part }), p4)
    } else {
        let ((signedness, ty), p4) = spec_int_type(s, p3);
        (NumberView::Int(IntView { sign, signedness, ty, digits: DigitsView::Denary(integer_part) }), p4)
    }
}

/// A floating-point number without integer part: a point at `p`, then digits.
pub open spec fn spec_fraction(s: Seq<u8>, p: int, sign: Sign) -> (NumberView, int) {
    let (fractional_part, p1) = digit_sequence(s, p + 1, Base::Denary);
    let (exponent_part, p2) = spec_exponent(s, p1);
    let (ty, p3) = spec_float_type(s, p2);
    (NumberView::Float(FloatView { sign, ty, integer_part: None, fractional_part: Some(fractional_part), exponent_part }), p3)
}

/// The number at `p`, and the position after it.
pub open spec fn spec_take_number(s: Seq<u8>, p0: int) -> Option<(NumberView, int)> {
    let (sign, p) = spec_sign(s, p0);
    if prefix_at(s, p, 0x62 /* 'b' */, Base::Binary) {
        let (digits, p1) = digit_sequence(s, p + 2, Base::Binary);
        let ((signedness, ty), p2) = spec_int_type(s, p1);
        Some((NumberView::Int(IntView { sign, signedness, ty, digits: DigitsView::Binary(digits) }), p2))
    } else if prefix_at(s, p, 0x78 /* 'x' */, Base::Hex) {
        let (digits, p1) = digit_sequence(s, p + 2, Base::Hex);
        let ((signedness, ty), p2) = spec_int_type(s, p1);
        Some((NumberView::Int(IntView { sign, signedness, ty, digits: DigitsView::Hex(digits) }), p2))
    } else if 0 <= p < s.len() && is_digit(s[p]) {
        Some(spec_decimal(s, p, sign))
    } else if 0 <= p && p + 1 < s.len() && s[p] == 0x2e /* '.' */ && is_digit(s[p + 1]) {
        Some(spec_fraction(s, p, sign))
    } else {
        None
    }
}

pub struct NumberParser<'src> {
    position: usize,
    source: &'src [u8],
}

impl<'src> NumberParser<'src> {
    pub closed spec fn pos(&self) -> int {
        self.position as int
    }

    pub closed spec fn src(&self) -> Seq<u8> {
        self.source@
    }

    pub closed spec fn wf(&self) -> bool {
        self.position <= self.source.len()
    }

    pub fn new(source: &'src [u8]) -> (r: Self)
        ensures
            r.pos() == 0,
            r.src() == source@,
            r.wf(),
    {
        Self { position: 0, source }
    }

    /// The number of bytes consumed so far.
    pub fn position(&self) -> (p: usize)
        ensures
            p as int == self.pos(),
    {
        self.position
    }

    /// The longest run of `base` digits and underscores from `start`, less one trailing
    /// underscore; the position moves past it.
    fn take_sequence(&mut self, start: usize, base: Base) -> (r: &'src [u8])
        requires
            old(self).wf(),
            start <= old(self).src().len(),
        ensures
            final(self).src() == old(self).src(),
            final(self).wf(),
            (r@, final(self).pos()) == digit_sequence(old(self).src(), start as int, base),
    {
        proof {
            lemma_run_len_bounds(self.source@, start as int, base);
        }
        let mut n: usize = 0;
        while start + n < self.source.len() && self.in_sequence_at(start + n, base)
            invariant
                start + n <= self.source.len(),
                run_len(self.source@, start as int, base) == n + run_len(self.source@, start + n, base),
            decreases self.source@.len() - start - n,
        {
            n = n + 1;
        }
        let k = if n > 0 && self.source[start + n - 1] == 0x5f /* '_' */ {
            n - 1
        } else {
            n
        };
        self.position = start + k;
        slice_subrange(self.source, start, start + k)
    }

    fn in_sequence_at(&self, i: usize, base: Base) -> (r: bool)
        requires
            i < self.source@.len(),
        ensures
            r == in_sequence(base, self.source@[i as int]),
    {
        let b = self.source[i];
        b == 0x5f /* '_' */ || match base {
            Base::Binary => b == 0x30 /* '0' */ || b == 0x31 /* '1' */,
            Base::Denary => 0x30 /* '0' */ <= b && b <= 0x39 /* '9' */,
            Base::Hex => (0x30 /* '0' */ <= b && b <= 0x39 /* '9' */) || (0x61 /* 'a' */ <= b && b <= 0x66 /* 'f' */) || (0x41 /* 'A' */ <= b
                && b <= 0x46 /* 'F' */),
        }
    }

    /// Takes a denary sequence at the current position, which must hold a digit.
    pub fn take_denary_sequence(&mut self) -> (r: &'src [u8])
        requires
            old(self).wf(),
            old(self).pos() < old(self).src().len(),
            is_digit(old(self).src()[old(self).pos()]),
        ensures
            final(self).src() == old(self).src(),
            final(self).wf(),
            (r@, final(self).pos()) == digit_sequence(old(self).src(), old(self).pos(), Base::Denary),
    {
        let start = self.position;
        self.take_sequence(start, Base::Denary)
    }

    /// Takes a binary sequence after the `0b` at the current position.
    pub fn take_binary_sequence(&mut self) -> (r: &'src [u8])
        requires
            old(self).wf(),
            old(self).pos() + 2 < old(self).src().len(),
            old(self).src()[old(self).pos()] == 0x30 /* '0' */,
            old(self).src()[old(self).pos() + 1] == 0x62 /* 'b' */,
            is_binary_digit(old(self).src()[old(self).pos() + 2]),
        ensures
            final(self).src() == old(self).src(),
            final(self).wf(),
            (r@, final(self).pos()) == digit_sequence(old(self).src(), old(self).pos() + 2, Base::Binary),
    {
        let start = self.position + 2;
        self.take_sequence(start, Base::Binary)
    }

    /// Takes a hexadecimal sequence after the `0x` at the current position.
    pub fn take_hex_sequence(&mut self) -> (r: &'src [u8])
        requires
            old(self).wf(),
            old(self).pos() + 2 < old(self).src().len(),
            old(self).src()[old(self).pos()] == 0x30 /* '0' */,
            old(self).src()[old(self).pos() + 1] == 0x78 /* 'x' */,
            is_hex_digit(old(self).src()[old(self).pos() + 2]),
        ensures
            final(self).src() == old(self).src(),
            final(self).wf(),
            (r@, final(self).pos()) == digit_sequence(old(self).src(), old(self).pos() + 2, Base::Hex),
    {
        let start = self.position + 2;
        self.take_sequence(start, Base::Hex)
    }
    fn byte_at(&self, i: usize) -> (r: Option<u8>)
        ensures
            r == (if i < self.source@.len() { Some(self.source@[i as int]) } else { None::<u8> }),
    {
        if i < self.source.len() {
            Some(self.source[i])
        } else {
            None
        }
    }

    fn take_sign(&mut self) -> (r: Sign)
        requires
            old(self).wf(),
        ensures
            final(self).src() == old(self).src(),
            final(self).wf(),
            (r, final(self).pos()) == spec_sign(old(self).src(), old(self).pos()),
    {
        if self.byte_at(self.position) == Some(0x2d /* '-' */) {
            self.position = self.position + 1;
            Sign::Negative
        } else {
            Sign::Positive
        }
    }

    fn int_type_of_byte(b: u8) -> (r: Option<IntType>)
        ensures
            r == int_type_of(b),
    {
        if b == 0x62 /* 'b' */ || b == 0x42 /* 'B' */ {
            Some(IntType::Int8)
        } else if b == 0x73 /* 's' */ || b == 0x53 /* 'S' */ {
            Some(IntType::Int16)
        } else if b == 0x69 /* 'i' */ || b == 0x49 /* 'I' */ {
            Some(IntType::Int32)
        } else if b == 0x6c /* 'l' */ || b == 0x4c /* 'L' */ {
            Some(IntType::Int64)
        } else {
            None
        }
    }

    fn take_int_type(&mut self) -> (r: (Signedness, IntType))
        requires
            old(self).wf(),
        ensures
            final(self).src() == old(self).src(),
            final(self).wf(),
            (r, final(self).pos()) == spec_int_type(old(self).src(), old(self).pos()),
    {
        if self.source.len() - self.position > 1 {
            let sg = self.source[self.position];
            let ty = self.source[self.position + 1];
            let signedness = if sg == 0x73 /* 's' */ || sg == 0x53 /* 'S' */ {
                Some(Signedness::Signed)
            } else if sg == 0x75 /* 'u' */ || sg == 0x55 /* 'U' */ {
                Some(Signedness::Unsigned)
            } else {
                None
            };
            let ty = Self::int_type_of_byte(ty);
            if let (Some(signedness), Some(ty)) = (signedness, ty) {
                self.position = self.position + 2;
                return (signedness, ty);
            }
        }
        match self.byte_at(self.position) {
            Some(b) => match Self::int_type_of_byte(b) {
                Some(ty) => {
                    self.position = self.position + 1;
                    (Signedness::Signed, ty)
                },
                None => (Signedness::Signed, IntType::Int32),
            },
            None => (Signedness::Signed, IntType::Int32),
        }
    }

    fn take_float_type(&mut self) -> (r: FloatType)
        requires
            old(self).wf(),
        ensures
            final(self).src() == old(self).src(),
            final(self).wf(),
            (r, final(self).pos()) == spec_float_type(old(self).src(), old(self).pos()),
    {
        match self.byte_at(self.position) {
            Some(b) => if b == 0x66 /* 'f' */ || b == 0x46 /* 'F' */ {
                self.position = self.position + 1;
                FloatType::Float32
            } else if b == 0x64 /* 'd' */ || b == 0x44 /* 'D' */ {
                self.position = self.position + 1;
                FloatType::Float64
            } else {
                FloatType::Float64
            },
            None => FloatType::Float64,
        }
    }

    fn take_optional_exponent_part(&mut self) -> (r: Option<(Sign, &'src [u8])>)
        requires
            old(self).wf(),
        ensures
            final(self).src() == old(self).src(),
            final(self).wf(),
            (match r {
                Some((sg, d)) => Some((sg, d@)),
                None => None::<(Sign, Seq<u8>)>,
            }, final(self).pos()) == spec_exponent(old(self).src(), old(self).pos()),
    {
        let p = self.position;
        let e0 = self.byte_at(p);
        let is_e = e0 == Some(0x65 /* 'e' */) || e0 == Some(0x45 /* 'E' */);
        if is_e && self.source.len() - p > 1 && 0x30 /* '0' */ <= self.source[p + 1] && self.source[p + 1] <= 0x39 /* '9' */ {
            self.position = p + 1;
            let d = self.take_denary_sequence();
            Some((Sign::Positive, d))
        } else if is_e && self.source.len() - p > 2 && self.source[p + 1] == 0x2d /* '-' */ && 0x30 /* '0' */ <= self.source[p + 2]
            && self.source[p + 2] <= 0x39 /* '9' */ {
            self.position = p + 2;
            let d = self.take_denary_sequence();
            Some((Sign::Negative, d))
        } else {
            None
        }
    }

    fn prefix_here(&self, marker: u8, base: Base) -> (r: bool)
        requires
            self.wf(),
        ensures
            r == prefix_at(self.src(), self.pos(), marker, base),
    {
        let p = self.position;
        self.source.len() - p > 2 && self.source[p] == 0x30 /* '0' */ && self.source[p + 1] == marker
            && self.in_sequence_at(p + 2, base) && self.source[p + 2] != 0x5f /* '_' */
    }

    /// Takes a denary integer or floating-point number that starts at a digit.
    fn take_decimal(&mut self, sign: Sign) -> (r: Number<'src>)
        requires
            old(self).wf(),
            old(self).pos() < old(self).src().len(),
            is_digit(old(self).src()[old(self).pos()]),
        ensures
            final(self).src() == old(self).src(),
            final(self).wf(),
            (r@, final(self).pos()) == spec_decimal(old(self).src(), old(self).pos(), sign),
    {
        let mut is_float = false;
        let integer_part = self.take_denary_sequence();
        let fractional_part = if self.byte_at(self.position) == Some(0x2e /* '.' */) {
            is_float = true;
            self.position = self.position + 1;
            let next = self.byte_at(self.position);
            if next.is_some() && 0x30 /* '0' */ <= next.unwrap() && next.unwrap() <= 0x39 /* '9' */ {
                Some(self.take_denary_sequence())
            } else {
                None
            }
        } else {
            None
        };
        let exponent_part = self.take_optional_exponent_part();
        is_float = is_float || exponent_part.is_some();
        let suffix = self.byte_at(self.position);
        let suffixed = match suffix {
            Some(b) => b == 0x66 /* 'f' */ || b == 0x46 /* 'F' */ || b == 0x64 /* 'd' */ || b == 0x44 /* 'D' */,
            None => false,
        };
        is_float = is_float || suffixed;
        if is_float {
            let ty = self.take_float_type();
            Number::Float(Float { sign, ty, integer_part: Some(integer_part), fractional_part, exponent_part })
        } else {
            let (signedness, ty) = self.take_int_type();
            Number::Int(Int { sign, ty, signedness, digits: IntBytes::Denary(integer_part) })
        }
    }

    /// Takes a floating-point number that starts at a point followed by a digit.
    fn take_fraction(&mut self, sign: Sign) -> (r: Number<'src>)
        requires
            old(self).wf(),
            old(self).pos() + 1 < old(self).src().len(),
            old(self).src()[old(self).pos()] == 0x2e /* '.' */,
            is_digit(old(self).src()[old(self).pos() + 1]),
        ensures
            final(self).src() == old(self).src(),
            final(self).wf(),
            (r@, final(self).pos()) == spec_fraction(old(self).src(), old(self).pos(), sign),
    {
        self.position = self.position + 1;
        let fractional_part = self.take_denary_sequence();
        let exponent_part = self.take_optional_exponent_part();
        let ty = self.take_float_type();
        Number::Float(Float { sign, ty, integer_part: None, fractional_part: Some(fractional_part), exponent_part })
    }

    /// Takes a number: an optional minus sign, then a binary (`0b`) or hexadecimal (`0x`)
    /// integer, or a denary integer or floating-point number, with its type suffix.
    pub fn take_number(&mut self) -> (r: Result<Number<'src>, Error>)
        requires
            old(self).wf(),
        ensures
            final(self).src() == old(self).src(),
            final(self).wf(),
            final(self).pos() <= final(self).src().len(),
            match r {
                Ok(n) => spec_take_number(old(self).src(), old(self).pos()) == Some((n@, final(self).pos())),
                Err(_) => spec_take_number(old(self).src(), old(self).pos()) is None,
            },
    {
        let sign = self.take_sign();
        if self.prefix_here(0x62 /* 'b' */, Base::Binary) {
            let digits = self.take_binary_sequence();
            let (signedness, ty) = self.take_int_type();
            return Ok(Number::Int(Int { sign, ty, signedness, digits: IntBytes::Binary(digits) }));
        }
        if self.prefix_here(0x78 /* 'x' */, Base::Hex) {
            let digits = self.take_hex_sequence();
            let (signedness, ty) = self.take_int_type();
            return Ok(Number::Int(Int { sign, ty, signedness, digits: IntBytes::Hex(digits) }));
        }
        let here = self.byte_at(self.position);
        if here.is_some() && 0x30 /* '0' */ <= here.unwrap() && here.unwrap() <= 0x39 /* '9' */ {
            return Ok(self.take_decimal(sign));
        }
        let p = self.position;
        if self.source.len() - p > 1 && self.source[p] == 0x2e /* '.' */ && 0x30 /* '0' */ <= self.source[p + 1] && self.source[p + 1] <= 0x39 /* '9' */ {
            return Ok(self.take_fraction(sign));
        }
        Err(Error)
    }
}


} // verus!
