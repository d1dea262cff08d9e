//! Writing NBT values as SNBT text.
//!
//! The text is produced as a sequence of pieces: runs of characters, and floating-point
//! payloads, which are held as their bit patterns and written out by whoever prints the text.
use vstd::prelude::*;
use vstd::utf8::is_scalar;
use crate::binary::TypeTag;
use crate::{Compound, List, ListVariant, NbtValue, Variant, list_model, compound_model, variant_model};
use crate::snbt::read::convert::push_char;

verus! {

/// A piece of SNBT text.
#[derive(Debug, PartialEq)]
pub enum SnbtPiece {
    Text(String),
    /// A 32-bit floating-point number, by its bits.
    Float32(u32),
    /// A 64-bit floating-point number, by its bits.
    Float64(u64),
}

/// A symbol of SNBT text: a character, or a floating-point number to be written in decimal.
#[derive(PartialEq, Eq, Structural)]
pub enum SnbtSym {
    Letter(char),
    Float32(u32),
    Float64(u64),
}

pub open spec fn text_syms(s: Seq<char>) -> Seq<SnbtSym> {
    Seq::new(
        s.len(),
        |i: int|
            if 0 <= i < s.len() {
                SnbtSym::Letter(s[i])
            } else {
                SnbtSym::Float32(0)
            },
    )
}

pub open spec fn piece_syms(p: SnbtPiece) -> Seq<SnbtSym> {
    match p {
        SnbtPiece::Text(s) => text_syms(s@),
        SnbtPiece::Float32(b) => seq![SnbtSym::Float32(b)],
        SnbtPiece::Float64(b) => seq![SnbtSym::Float64(b)],
    }
}

/// The symbols of a sequence of pieces.
pub open spec fn flat(ps: Seq<SnbtPiece>) -> Seq<SnbtSym>
    decreases ps.len(),
{
    if ps.len() == 0 {
        seq![]
    } else {
        flat(ps.drop_last()) + piece_syms(ps.last())
    }
}

pub proof fn lemma_flat_push(ps: Seq<SnbtPiece>, p: SnbtPiece)
    ensures
        flat(ps.push(p)) == flat(ps) + piece_syms(p),
{
    assert(ps.push(p).drop_last() =~= ps);
}

pub open spec fn digit_char(d: nat) -> char {
    (d + 0x30) as char
}

/// The denary digits of `n`.
pub open spec fn decimal(n: nat) -> Seq<char>
    decreases n,
{
    if n < 10 {
        seq![digit_char(n)]
    } else {
        decimal(n / 10).push(digit_char(n % 10))
    }
}

/// The number that denary digit characters stand for.
pub open spec fn digits_value(cs: Seq<char>) -> int
    decreases cs.len(),
{
    if cs.len() == 0 {
        0
    } else {
        digits_value(cs.drop_last()) * 10 + (cs.last() as int - 0x30)
    }
}

/// The denary text of a number: at least one character, every character a digit `0`-`9`, no
/// leading zero, and the digits read back as the number.
pub proof fn law_decimal(n: nat)
    ensures
        decimal(n).len() >= 1,
        forall|i: int| 0 <= i < decimal(n).len() ==> '0' <= #[trigger] decimal(n)[i] <= '9',
        n >= 10 ==> decimal(n)[0] != '0',
        digits_value(decimal(n)) == n,
    decreases n,
{
    if n >= 10 {
        law_decimal(n / 10);
        let d = decimal(n);
        assert(d.drop_last() =~= decimal(n / 10));
        assert forall|i: int| 0 <= i < d.len() implies '0' <= #[trigger] d[i] <= '9' by {
            if i < d.len() - 1 {
                assert(d[i] == decimal(n / 10)[i]);
            }
        }
        assert(d[0] == decimal(n / 10)[0]);
        let k = n % 10;
        assert(d.last() == digit_char(k));
        assert(digit_char(k) as int == k + 0x30);
        assert(digits_value(d) == digits_value(decimal(n / 10)) * 10 + k);
        assert((n / 10) * 10 + n % 10 == n);
    } else {
        assert(decimal(n).drop_last() =~= Seq::<char>::empty());
        assert(digit_char(n) as int == n + 0x30);
        reveal_with_fuel(digits_value, 2);
        assert(digits_value(Seq::<char>::empty()) == 0);
    }
}

/// Arrays are written after their SNBT headers: `[B; ` for bytes, `[I; ` for ints and `[L; `
/// for longs, and end with `]`.
pub proof fn law_array_headers(v: NbtValue, indent: nat)
    ensures
        v is Int8List ==> snbt(v, indent).take(4) == seq![SnbtSym::Letter('['), SnbtSym::Letter('B'), SnbtSym::Letter(';'), SnbtSym::Letter(' ')],
        v is Int32List ==> snbt(v, indent).take(4) == seq![SnbtSym::Letter('['), SnbtSym::Letter('I'), SnbtSym::Letter(';'), SnbtSym::Letter(' ')],
        v is Int64List ==> snbt(v, indent).take(4) == seq![SnbtSym::Letter('['), SnbtSym::Letter('L'), SnbtSym::Letter(';'), SnbtSym::Letter(' ')],
        (v is Int8List || v is Int32List || v is Int64List) ==> snbt(v, indent).last() == SnbtSym::Letter(']'),
{
    let t = snbt(v, indent);
    match v {
        NbtValue::Int8List(xs) => {
            assert(t.take(4) =~= seq![SnbtSym::Letter('['), SnbtSym::Letter('B'), SnbtSym::Letter(';'), SnbtSym::Letter(' ')]);
        },
        NbtValue::Int32List(xs) => {
            assert(t.take(4) =~= seq![SnbtSym::Letter('['), SnbtSym::Letter('I'), SnbtSym::Letter(';'), SnbtSym::Letter(' ')]);
        },
        NbtValue::Int64List(xs) => {
            assert(t.take(4) =~= seq![SnbtSym::Letter('['), SnbtSym::Letter('L'), SnbtSym::Letter(';'), SnbtSym::Letter(' ')]);
        },
        _ => {},
    }
}

/// Numbers and strings are written with the letter of their type: `b` for a byte, `s` a
/// short, `i` an int, `l` a long, each after its denary digits; `f` after a float and `d` after
/// a double; a string between double quotes.
pub proof fn law_scalar_text(v: NbtValue, indent: nat)
    ensures
        v matches NbtValue::Int8(x) ==> snbt(v, indent) == text_syms(decimal(x as nat)) + sym('b'),
        v matches NbtValue::Int16(x) ==> snbt(v, indent) == text_syms(decimal(x as nat)) + sym('s'),
        v matches NbtValue::Int32(x) ==> snbt(v, indent) == text_syms(decimal(x as nat)) + sym('i'),
        v matches NbtValue::Int64(x) ==> snbt(v, indent) == text_syms(decimal(x as nat)) + sym('l'),
        v matches NbtValue::Float32(b) ==> snbt(v, indent) == seq![SnbtSym::Float32(b), SnbtSym::Letter('f')],
        v matches NbtValue::Float64(b) ==> snbt(v, indent) == seq![SnbtSym::Float64(b), SnbtSym::Letter('d')],
        v matches NbtValue::String(t) ==> snbt(v, indent) == seq![SnbtSym::Letter('"')] + text_syms(t) + seq![SnbtSym::Letter('"')],
{
    if let NbtValue::Float32(b) = v {
        assert(snbt(v, indent) =~= seq![SnbtSym::Float32(b), SnbtSym::Letter('f')]);
    }
    if let NbtValue::Float64(b) = v {
        assert(snbt(v, indent) =~= seq![SnbtSym::Float64(b), SnbtSym::Letter('d')]);
    }
}

pub open spec fn sym(c: char) -> Seq<SnbtSym> {
    seq![SnbtSym::Letter(c)]
}

/// `n` tab characters.
pub open spec fn tabs(n: nat) -> Seq<SnbtSym> {
    Seq::new(n, |i: int| SnbtSym::Letter('\t'))
}

/// An integer with its type letter.
pub open spec fn int_text(x: nat, letter: char) -> Seq<SnbtSym> {
    text_syms(decimal(x)) + sym(letter)
}

/// A string between double quotes, as it is.
pub open spec fn string_text(s: Seq<char>) -> Seq<SnbtSym> {
    sym('"') + text_syms(s) + sym('"')
}

/// The separator after element `i` of `n`: a comma and a space, but after the last.
pub open spec fn inline_sep(i: int, n: int) -> Seq<SnbtSym> {
    if i < n - 1 {
        sym(',') + sym(' ')
    } else {
        seq![]
    }
}

/// The line end after element `i` of `n`: a comma before it, but after the last.
pub open spec fn block_sep(i: int, n: int) -> Seq<SnbtSym> {
    if i < n - 1 {
        sym(',') + sym('\n')
    } else {
        sym('\n')
    }
}

/// The element tags whose lists are written on one line.
pub open spec fn is_inline_tag(t: TypeTag) -> bool {
    t == TypeTag::Int8 || t == TypeTag::Int16 || t == TypeTag::Int32 || t == TypeTag::Int64 || t == TypeTag::Float32
        || t == TypeTag::Float64 || t == TypeTag::String
}

/// An array of integers: its header, the upper-case type letter `header` and a semicolon,
/// then each integer with the lower-case type letter `letter`.
pub open spec fn typed_text(xs: Seq<int>, letter: char, header: char) -> Seq<SnbtSym> {
    sym('[') + sym(header) + sym(';') + sym(' ') + typed_items(xs, letter, xs.len() as int) + sym(']')
}

pub open spec fn typed_items(xs: Seq<int>, letter: char, n: int) -> Seq<SnbtSym>
    decreases n,
{
    if n <= 0 || n > xs.len() {
        seq![]
    } else {
        typed_items(xs, letter, n - 1) + int_text(xs[n - 1] as nat, letter) + inline_sep(n - 1, xs.len() as int)
    }
}

/// The SNBT text of a value, whose nested lines are indented by `indent` tabs.
pub open spec fn snbt(v: NbtValue, indent: nat) -> Seq<SnbtSym>
    decreases v, 0int,
{
    match v {
        NbtValue::Int8(x) => int_text(x as nat, 'b'),
        NbtValue::Int16(x) => int_text(x as nat, 's'),
        NbtValue::Int32(x) => int_text(x as nat, 'i'),
        NbtValue::Int64(x) => int_text(x as nat, 'l'),
        NbtValue::Float32(b) => seq![SnbtSym::Float32(b)] + sym('f'),
        NbtValue::Float64(b) => seq![SnbtSym::Float64(b)] + sym('d'),
        NbtValue::String(s) => string_text(s),
        NbtValue::List(t, items) => if t == TypeTag::EndCompound {
            sym('[') + sym(']')
        } else if is_inline_tag(t) {
            sym('[') + inline_items(items, items.len() as int) + sym(']')
        } else {
            sym('[') + sym('\n') + block_items(items, indent, items.len() as int) + tabs(indent) + sym(']')
        },
        NbtValue::Compound(es) => sym('{') + sym('\n') + entries_text(es, indent, es.len() as int) + tabs(indent) + sym('}'),
        NbtValue::Int8List(xs) => typed_text(xs.map_values(|x: u8| x as int), 'b', 'B'),
        NbtValue::Int32List(xs) => typed_text(xs.map_values(|x: u32| x as int), 'i', 'I'),
        NbtValue::Int64List(xs) => typed_text(xs.map_values(|x: u64| x as int), 'l', 'L'),
    }
}

/// The first `n` elements of a list on one line.
pub open spec fn inline_items(items: Seq<NbtValue>, n: int) -> Seq<SnbtSym>
    decreases items, n,
{
    if n <= 0 || n > items.len() {
        seq![]
    } else {
        inline_items(items, n - 1) + snbt(items[n - 1], 0) + inline_sep(n - 1, items.len() as int)
    }
}

/// The first `n` elements of a list, a line each.
pub open spec fn block_items(items: Seq<NbtValue>, indent: nat, n: int) -> Seq<SnbtSym>
    decreases items, n,
{
    if n <= 0 || n > items.len() {
        seq![]
    } else {
        block_items(items, indent, n - 1) + tabs(indent + 1) + snbt(items[n - 1], indent + 1) + block_sep(
            n - 1,
            items.len() as int,
        )
    }
}

/// The first `n` entries of a compound, a line each.
pub open spec fn entries_text(es: Seq<(Seq<char>, NbtValue)>, indent: nat, n: int) -> Seq<SnbtSym>
    decreases es, n,
{
    if n <= 0 || n > es.len() {
        seq![]
    } else {
        entries_text(es, indent, n - 1) + tabs(indent + 1) + string_text(es[n - 1].0) + sym(':') + sym(' ') + snbt(
            es[n - 1].1,
            indent + 1,
        ) + block_sep(n - 1, es.len() as int)
    }
}

/// How deeply lists and compounds nest in a value.
pub open spec fn depth(v: NbtValue) -> nat
    decreases v, 0int,
{
    match v {
        NbtValue::List(_, items) => 1 + items_depth(items, items.len() as int),
        NbtValue::Compound(es) => 1 + entries_depth(es, es.len() as int),
        _ => 0,
    }
}

pub open spec fn items_depth(items: Seq<NbtValue>, n: int) -> nat
    decreases items, n,
{
    if n <= 0 || n > items.len() {
        0
    } else {
        let a = items_depth(items, n - 1);
        let b = depth(items[n - 1]);
        if a < b {
            b
        } else {
            a
        }
    }
}

pub open spec fn entries_depth(es: Seq<(Seq<char>, NbtValue)>, n: int) -> nat
    decreases es, n,
{
    if n <= 0 || n > es.len() {
        0
    } else {
        let a = entries_depth(es, n - 1);
        let b = depth(es[n - 1].1);
        if a < b {
            b
        } else {
            a
        }
    }
}

/// Emits `c`.
fn emit(out: &mut Vec<SnbtPiece>, c: char)
    ensures
        flat(final(out)@) == flat(old(out)@) + sym(c),
{
    let mut s = String::new();
    push_char(&mut s, c);
    proof {
        assert(s@ =~= seq![c]);
        assert(text_syms(s@).len() == 1);
        assert(text_syms(s@) =~= sym(c));
        lemma_flat_push(out@, SnbtPiece::Text(s));
    }
    out.push(SnbtPiece::Text(s));
}

/// Emits `indent` tabs.
fn emit_tabs(out: &mut Vec<SnbtPiece>, indent: usize)
    ensures
        flat(final(out)@) == flat(old(out)@) + tabs(indent as nat),
{
    let ghost start = flat(out@);
    let mut i: usize = 0;
    assert(tabs(0) =~= Seq::<SnbtSym>::empty());
    assert(start + tabs(0) =~= start);
    while i < indent
        invariant
            i <= indent,
            flat(out@) == start + tabs(i as nat),
        decreases indent - i,
    {
        emit(out, '\t');
        assert(start + tabs(i as nat) + sym('\t') =~= start + tabs(i as nat + 1));
        i = i + 1;
    }
}

fn digit(d: u64) -> (c: char)
    requires
        d < 10,
    ensures
        c == digit_char(d as nat),
{
    match d {
        0 => '0',
        1 => '1',
        2 => '2',
        3 => '3',
        4 => '4',
        5 => '5',
        6 => '6',
        7 => '7',
        8 => '8',
        _ => '9',
    }
}

pub(crate) fn push_decimal(s: &mut String, n: u64)
    ensures
        final(s)@ == old(s)@ + decimal(n as nat),
    decreases n,
{
    if n >= 10 {
        push_decimal(s, n / 10);
    }
    push_char(s, digit(n % 10));
    assert(old(s)@ + decimal(n as nat) =~= final_decimal(old(s)@, n));
}

pub open spec fn final_decimal(prefix: Seq<char>, n: u64) -> Seq<char> {
    if n >= 10 {
        prefix + decimal((n / 10) as nat) + seq![digit_char((n % 10) as nat)]
    } else {
        prefix + seq![digit_char(n as nat)]
    }
}

/// Emits an integer with its type letter.
fn emit_int(out: &mut Vec<SnbtPiece>, n: u64, letter: char)
    ensures
        flat(final(out)@) == flat(old(out)@) + int_text(n as nat, letter),
{
    let mut s = String::new();
    push_decimal(&mut s, n);
    proof {
        assert(s@ =~= decimal(n as nat));
        lemma_flat_push(out@, SnbtPiece::Text(s));
    }
    out.push(SnbtPiece::Text(s));
    emit(out, letter);
}

/// The type letters of an integer type: the lower-case one that follows a number, and the
/// upper-case one that opens an array of such numbers.
pub trait TypeSymbol {
    spec fn symbol() -> char;

    spec fn header_symbol() -> char;

    fn type_symbol() -> (c: char)
        ensures
            c == Self::symbol(),
    ;

    fn header_type_symbol() -> (c: char)
        ensures
            c == Self::header_symbol(),
    ;
}

/// A payload written on its own.
pub trait PrimitiveDisplay {
    spec fn text(&self) -> Seq<SnbtSym>;

    fn fmt(&self, out: &mut Vec<SnbtPiece>)
        ensures
            flat(final(out)@) == flat(old(out)@) + self.text(),
    ;
}

impl TypeSymbol for u8 {
    open spec fn symbol() -> char {
        'b'
    }

    fn type_symbol() -> (c: char) {
        'b'
    }

    open spec fn header_symbol() -> char {
        'B'
    }

    fn header_type_symbol() -> (c: char) {
        'B'
    }
}

impl TypeSymbol for u16 {
    open spec fn symbol() -> char {
        's'
    }

    fn type_symbol() -> (c: char) {
        's'
    }

    open spec fn header_symbol() -> char {
        'S'
    }

    fn header_type_symbol() -> (c: char) {
        'S'
    }
}

impl TypeSymbol for u32 {
    open spec fn symbol() -> char {
        'i'
    }

    fn type_symbol() -> (c: char) {
        'i'
    }

    open spec fn header_symbol() -> char {
        'I'
    }

    fn header_type_symbol() -> (c: char) {
        'I'
    }
}

impl TypeSymbol for u64 {
    open spec fn symbol() -> char {
        'l'
    }

    fn type_symbol() -> (c: char) {
        'l'
    }

    open spec fn header_symbol() -> char {
        'L'
    }

    fn header_type_symbol() -> (c: char) {
        'L'
    }
}

impl PrimitiveDisplay for u8 {
    open spec fn text(&self) -> Seq<SnbtSym> {
        int_text(*self as nat, 'b')
    }

    fn fmt(&self, out: &mut Vec<SnbtPiece>) {
        emit_int(out, *self as u64, 'b');
    }
}

impl PrimitiveDisplay for u16 {
    open spec fn text(&self) -> Seq<SnbtSym> {
        int_text(*self as nat, 's')
    }

    fn fmt(&self, out: &mut Vec<SnbtPiece>) {
        emit_int(out, *self as u64, 's');
    }
}

impl PrimitiveDisplay for u32 {
    open spec fn text(&self) -> Seq<SnbtSym> {
        int_text(*self as nat, 'i')
    }

    fn fmt(&self, out: &mut Vec<SnbtPiece>) {
        emit_int(out, *self as u64, 'i');
    }
}

impl PrimitiveDisplay for u64 {
    open spec fn text(&self) -> Seq<SnbtSym> {
        int_text(*self as nat, 'l')
    }

    fn fmt(&self, out: &mut Vec<SnbtPiece>) {
        emit_int(out, *self, 'l');
    }
}

impl PrimitiveDisplay for String {
    open spec fn text(&self) -> Seq<SnbtSym> {
        string_text(self@)
    }

    fn fmt(&self, out: &mut Vec<SnbtPiece>) {
        emit(out, '"');
        let s = self.clone();
        proof {
            lemma_flat_push(out@, SnbtPiece::Text(s));
        }
        out.push(SnbtPiece::Text(s));
        emit(out, '"');
    }
}

/// The first `n` payloads, on one line.
pub open spec fn primitive_items<T: PrimitiveDisplay>(xs: Seq<T>, n: int) -> Seq<SnbtSym>
    decreases n,
{
    if n <= 0 || n > xs.len() {
        seq![]
    } else {
        primitive_items(xs, n - 1) + xs[n - 1].text() + inline_sep(n - 1, xs.len() as int)
    }
}

impl<T: PrimitiveDisplay> ListVariant<T> {
    /// Writes the payloads between brackets, on one line.
    pub fn fmt_list(&self, out: &mut Vec<SnbtPiece>)
        ensures
            flat(final(out)@) == flat(old(out)@) + sym('[') + primitive_items(self.0@, self.0@.len() as int) + sym(']'),
    {
        emit(out, '[');
        let ghost start = flat(out@);
        let mut i: usize = 0;
        assert(start + primitive_items(self.0@, 0) =~= start);
        while i < self.0.len()
            invariant
                i <= self.0@.len(),
                flat(out@) == start + primitive_items(self.0@, i as int),
            decreases self.0@.len() - i,
        {
            self.0[i].fmt(out);
            if i < self.0.len() - 1 {
                emit(out, ',');
                emit(out, ' ');
            }
            assert(start + primitive_items(self.0@, i as int + 1) =~= start + primitive_items(self.0@, i as int)
                + self.0@[i as int].text() + inline_sep(i as int, self.0@.len() as int));
            i = i + 1;
        }
        emit(out, ']');
    }
}

impl<T: PrimitiveDisplay + TypeSymbol> ListVariant<T> {
    /// Writes an array: its header (the upper-case type letter and a semicolon), then the
    /// payloads, on one line.
    pub fn fmt_typed_list(&self, out: &mut Vec<SnbtPiece>)
        ensures
            flat(final(out)@) == flat(old(out)@) + sym('[') + sym(T::header_symbol()) + sym(';') + sym(' ') + primitive_items(
                self.0@,
                self.0@.len() as int,
            ) + sym(']'),
    {
        emit(out, '[');
        emit(out, T::header_type_symbol());
        emit(out, ';');
        emit(out, ' ');
        let ghost start = flat(out@);
        let mut i: usize = 0;
        assert(start + primitive_items(self.0@, 0) =~= start);
        while i < self.0.len()
            invariant
                i <= self.0@.len(),
                flat(out@) == start + primitive_items(self.0@, i as int),
            decreases self.0@.len() - i,
        {
            self.0[i].fmt(out);
            if i < self.0.len() - 1 {
                emit(out, ',');
                emit(out, ' ');
            }
            assert(start + primitive_items(self.0@, i as int + 1) =~= start + primitive_items(self.0@, i as int)
                + self.0@[i as int].text() + inline_sep(i as int, self.0@.len() as int));
            i = i + 1;
        }
        emit(out, ']');
    }
}

/// Payloads written on one line are the elements of an inline list whose values they are.
pub proof fn lemma_primitive_inline<T: PrimitiveDisplay>(xs: Seq<T>, vals: Seq<NbtValue>, n: int)
    requires
        xs.len() == vals.len(),
        0 <= n <= xs.len(),
        forall|i: int| 0 <= i < xs.len() ==> #[trigger] snbt(vals[i], 0) == xs[i].text(),
    ensures
        primitive_items(xs, n) == inline_items(vals, n),
    decreases n,
{
    if n > 0 {
        lemma_primitive_inline(xs, vals, n - 1);
        assert(snbt(vals[n - 1], 0) == xs[n - 1].text());
    }
}

/// Payloads written on one line are the integers of an array.
pub proof fn lemma_primitive_typed<T: PrimitiveDisplay>(xs: Seq<T>, ints: Seq<int>, letter: char, n: int)
    requires
        xs.len() == ints.len(),
        0 <= n <= xs.len(),
        forall|i: int| 0 <= i < xs.len() ==> #[trigger] xs[i].text() == int_text(ints[i] as nat, letter),
    ensures
        primitive_items(xs, n) == typed_items(ints, letter, n),
    decreases n,
{
    if n > 0 {
        lemma_primitive_typed(xs, ints, letter, n - 1);
        assert(xs[n - 1].text() == int_text(ints[n - 1] as nat, letter));
    }
}

/// A child is no deeper than the deepest of the children.
pub proof fn lemma_items_depth(items: Seq<NbtValue>, n: int, i: int)
    requires
        0 <= i < n <= items.len(),
    ensures
        depth(items[i]) <= items_depth(items, n),
    decreases n,
{
    if i < n - 1 {
        lemma_items_depth(items, n - 1, i);
    }
}

pub proof fn lemma_entries_depth(es: Seq<(Seq<char>, NbtValue)>, n: int, i: int)
    requires
        0 <= i < n <= es.len(),
    ensures
        depth(es[i].1) <= entries_depth(es, n),
    decreases n,
{
    if i < n - 1 {
        lemma_entries_depth(es, n - 1, i);
    }
}

/// Writes a value as SNBT text, its nested lines indented by `indent` tabs.
pub fn fmt_indented(v: &Variant, indent: usize, out: &mut Vec<SnbtPiece>)
    requires
        indent + depth(v@) <= usize::MAX,
    ensures
        flat(final(out)@) == flat(old(out)@) + snbt(v@, indent as nat),
    decreases v,
{
    match v {
        Variant::Int8(x) => x.fmt(out),
        Variant::Int16(x) => x.fmt(out),
        Variant::Int32(x) => x.fmt(out),
        Variant::Int64(x) => x.fmt(out),
        Variant::Float32(b) => {
            proof {
                lemma_flat_push(out@, SnbtPiece::Float32(*b));
            }
            out.push(SnbtPiece::Float32(*b));
            emit(out, 'f');
        },
        Variant::Float64(b) => {
            proof {
                lemma_flat_push(out@, SnbtPiece::Float64(*b));
            }
            out.push(SnbtPiece::Float64(*b));
            emit(out, 'd');
        },
        Variant::String(s) => s.fmt(out),
        Variant::List(l) => fmt_list_indented(l, indent, out),
        Variant::Compound(c) => fmt_compound(c, indent, out),
        Variant::Int8List(l) => {
            l.fmt_typed_list(out);
            proof {
                lemma_primitive_typed(l.0@, l.0@.map_values(|x: u8| x as int), 'b', l.0@.len() as int);
            }
        },
        Variant::Int32List(l) => {
            l.fmt_typed_list(out);
            proof {
                lemma_primitive_typed(l.0@, l.0@.map_values(|x: u32| x as int), 'i', l.0@.len() as int);
            }
        },
        Variant::Int64List(l) => {
            l.fmt_typed_list(out);
            proof {
                lemma_primitive_typed(l.0@, l.0@.map_values(|x: u64| x as int), 'l', l.0@.len() as int);
            }
        },
    }
}

/// Writes a list of floating-point payloads on one line.
fn fmt_float_list(xs: &Vec<u64>, wide: bool, out: &mut Vec<SnbtPiece>)
    requires
        !wide ==> forall|i: int| 0 <= i < xs@.len() ==> xs@[i] < 0x1_0000_0000,
    ensures
        flat(final(out)@) == flat(old(out)@) + sym('[') + inline_items(
            if wide {
                xs@.map_values(|x: u64| NbtValue::Float64(x))
            } else {
                xs@.map_values(|x: u64| NbtValue::Float32(x as u32))
            },
            xs@.len() as int,
        ) + sym(']'),
{
    let ghost vals = if wide {
        xs@.map_values(|x: u64| NbtValue::Float64(x))
    } else {
        xs@.map_values(|x: u64| NbtValue::Float32(x as u32))
    };
    emit(out, '[');
    let ghost start = flat(out@);
    let mut i: usize = 0;
    assert(start + inline_items(vals, 0) =~= start);
    while i < xs.len()
        invariant
            i <= xs@.len(),
            vals.len() == xs@.len(),
            vals == (if wide {
                xs@.map_values(|x: u64| NbtValue::Float64(x))
            } else {
                xs@.map_values(|x: u64| NbtValue::Float32(x as u32))
            }),
            !wide ==> forall|k: int| 0 <= k < xs@.len() ==> xs@[k] < 0x1_0000_0000,
            flat(out@) == start + inline_items(vals, i as int),
        decreases xs@.len() - i,
    {
        let ghost mid = flat(out@);
        if wide {
            proof {
                lemma_flat_push(out@, SnbtPiece::Float64(xs@[i as int]));
            }
            out.push(SnbtPiece::Float64(xs[i]));
            emit(out, 'd');
        } else {
            proof {
                lemma_flat_push(out@, SnbtPiece::Float32(xs@[i as int] as u32));
            }
            out.push(SnbtPiece::Float32(xs[i] as u32));
            emit(out, 'f');
        }
        assert(flat(out@) == mid + snbt(vals[i as int], 0));
        if i < xs.len() - 1 {
            emit(out, ',');
            emit(out, ' ');
        }
        assert(start + inline_items(vals, i as int + 1) =~= start + inline_items(vals, i as int) + snbt(vals[i as int], 0)
            + inline_sep(i as int, xs@.len() as int));
        i = i + 1;
    }
    emit(out, ']');
}

/// Writes a list as SNBT text.
pub fn fmt_list_indented(l: &List, indent: usize, out: &mut Vec<SnbtPiece>)
    requires
        indent + depth(list_model(*l)) <= usize::MAX,
    ensures
        flat(final(out)@) == flat(old(out)@) + snbt(list_model(*l), indent as nat),
    decreases l,
{
    match l {
        List::Empty => {
            emit(out, '[');
            emit(out, ']');
        },
        List::Int8(lv) => {
            lv.fmt_list(out);
            proof {
                lemma_primitive_inline(lv.0@, crate::int8_values(lv.0@), lv.0@.len() as int);
            }
        },
        List::Int16(lv) => {
            lv.fmt_list(out);
            proof {
                lemma_primitive_inline(lv.0@, crate::int16_values(lv.0@), lv.0@.len() as int);
            }
        },
        List::Int32(lv) => {
            lv.fmt_list(out);
            proof {
                lemma_primitive_inline(lv.0@, crate::int32_values(lv.0@), lv.0@.len() as int);
            }
        },
        List::Int64(lv) => {
            lv.fmt_list(out);
            proof {
                lemma_primitive_inline(lv.0@, crate::int64_values(lv.0@), lv.0@.len() as int);
            }
        },
        List::String(lv) => {
            lv.fmt_list(out);
            proof {
                lemma_primitive_inline(lv.0@, crate::string_values(lv.0@), lv.0@.len() as int);
            }
        },
        List::Float32(lv) => {
            let mut wide: Vec<u64> = Vec::new();
            let mut i: usize = 0;
            while i < lv.0.len()
                invariant
                    i <= lv.0@.len(),
                    wide@ =~= lv.0@.take(i as int).map_values(|x: u32| x as u64),
                decreases lv.0@.len() - i,
            {
                wide.push(lv.0[i] as u64);
                i = i + 1;
            }
            proof {
                assert(lv.0@.take(i as int) =~= lv.0@);
            }
            fmt_float_list(&wide, false, out);
            proof {
                assert(wide@.map_values(|x: u64| NbtValue::Float32(x as u32)) =~= crate::float32_values(lv.0@));
            }
        },
        List::Float64(lv) => {
            fmt_float_list(&lv.0, true, out);
            proof {
                assert(lv.0@.map_values(|x: u64| NbtValue::Float64(x)) =~= crate::float64_values(lv.0@));
            }
        },
        List::List(lv) => {
            let ghost vals = crate::list_values(lv.0@);
            emit(out, '[');
            emit(out, '\n');
            let ghost start = flat(out@);
            let mut i: usize = 0;
            assert(start + block_items(vals, indent as nat, 0) =~= start);
            while i < lv.0.len()
                invariant
                    i <= lv.0@.len(),
                    vals == crate::list_values(lv.0@),
                    vals.len() == lv.0@.len(),
                    indent + depth(list_model(*l)) <= usize::MAX,
                    list_model(*l) == NbtValue::List(TypeTag::List, vals),
                    *l == List::List(*lv),
                    flat(out@) == start + block_items(vals, indent as nat, i as int),
                decreases lv.0@.len() - i,
            {
                proof {
                    lemma_items_depth(vals, vals.len() as int, i as int);
                    assert(vals[i as int] == list_model(lv.0@[i as int]));
                }
                emit_tabs(out, indent + 1);
                fmt_list_indented(&lv.0[i], indent + 1, out);
                if i < lv.0.len() - 1 {
                    emit(out, ',');
                    emit(out, '\n');
                } else {
                    emit(out, '\n');
                }
                assert(start + block_items(vals, indent as nat, i as int + 1) =~= start + block_items(vals, indent as nat, i as int)
                    + tabs(indent as nat + 1) + snbt(vals[i as int], indent as nat + 1) + block_sep(i as int, vals.len() as int));
                i = i + 1;
            }
            emit_tabs(out, indent);
            emit(out, ']');
        },
        List::Compound(lv) => {
            let ghost vals = crate::compound_values(lv.0@);
            emit(out, '[');
            emit(out, '\n');
            let ghost start = flat(out@);
            let mut i: usize = 0;
            assert(start + block_items(vals, indent as nat, 0) =~= start);
            while i < lv.0.len()
                invariant
                    i <= lv.0@.len(),
                    vals == crate::compound_values(lv.0@),
                    vals.len() == lv.0@.len(),
                    indent + depth(list_model(*l)) <= usize::MAX,
                    list_model(*l) == NbtValue::List(TypeTag::Compound, vals),
                    *l == List::Compound(*lv),
                    flat(out@) == start + block_items(vals, indent as nat, i as int),
                decreases lv.0@.len() - i,
            {
                proof {
                    lemma_items_depth(vals, vals.len() as int, i as int);
                    assert(vals[i as int] == NbtValue::Compound(compound_model(lv.0@[i as int])));
                }
                emit_tabs(out, indent + 1);
                fmt_compound(&lv.0[i], indent + 1, out);
                if i < lv.0.len() - 1 {
                    emit(out, ',');
                    emit(out, '\n');
                } else {
                    emit(out, '\n');
                }
                assert(start + block_items(vals, indent as nat, i as int + 1) =~= start + block_items(vals, indent as nat, i as int)
                    + tabs(indent as nat + 1) + snbt(vals[i as int], indent as nat + 1) + block_sep(i as int, vals.len() as int));
                i = i + 1;
            }
            emit_tabs(out, indent);
            emit(out, ']');
        },
        List::Int8List(lv) => fmt_array_list_u8(lv, indent, out),
        List::Int32List(lv) => fmt_array_list_u32(lv, indent, out),
        List::Int64List(lv) => fmt_array_list_u64(lv, indent, out),
    }
}

/// Writes a compound as SNBT text: an entry a line, each key in double quotes.
pub fn fmt_compound(c: &Compound, indent: usize, out: &mut Vec<SnbtPiece>)
    requires
        indent + depth(NbtValue::Compound(compound_model(*c))) <= usize::MAX,
    ensures
        flat(final(out)@) == flat(old(out)@) + snbt(NbtValue::Compound(compound_model(*c)), indent as nat),
    decreases c,
{
    let ghost es = compound_model(*c);
    emit(out, '{');
    emit(out, '\n');
    let ghost start = flat(out@);
    let mut i: usize = 0;
    assert(start + entries_text(es, indent as nat, 0) =~= start);
    while i < c.0.len()
        invariant
            i <= c.0@.len(),
            es == compound_model(*c),
            es.len() == c.0@.len(),
            indent + depth(NbtValue::Compound(es)) <= usize::MAX,
            flat(out@) == start + entries_text(es, indent as nat, i as int),
        decreases c.0@.len() - i,
    {
        proof {
            lemma_entries_depth(es, es.len() as int, i as int);
            assert(es[i as int] == (c.0@[i as int].0@, variant_model(c.0@[i as int].1)));
        }
        emit_tabs(out, indent + 1);
        c.0[i].0.fmt(out);
        emit(out, ':');
        emit(out, ' ');
        fmt_indented(&c.0[i].1, indent + 1, out);
        if i < c.0.len() - 1 {
            emit(out, ',');
            emit(out, '\n');
        } else {
            emit(out, '\n');
        }
        assert(start + entries_text(es, indent as nat, i as int + 1) =~= start + entries_text(es, indent as nat, i as int)
            + tabs(indent as nat + 1) + string_text(es[i as int].0) + sym(':') + sym(' ') + snbt(es[i as int].1, indent as nat + 1)
            + block_sep(i as int, es.len() as int));
        i = i + 1;
    }
    emit_tabs(out, indent);
    emit(out, '}');
}

/// Children of no depth leave their parent one deep.
pub proof fn lemma_flat_items_depth(items: Seq<NbtValue>, n: int)
    requires
        0 <= n <= items.len(),
        forall|i: int| 0 <= i < items.len() ==> depth(#[trigger] items[i]) == 0,
    ensures
        items_depth(items, n) == 0,
    decreases n,
{
    if n > 0 {
        lemma_flat_items_depth(items, n - 1);
    }
}

/// `1 + d`, where it fits.
fn one_deeper(d: usize) -> (r: Option<usize>)
    ensures
        r matches Some(x) ==> x == d + 1,
        r is None ==> d + 1 > usize::MAX,
{
    if d < usize::MAX {
        Some(d + 1)
    } else {
        None
    }
}

/// The nesting depth of a value as [`depth`] counts it, where it fits in `usize`.
pub fn nesting_depth(v: &Variant) -> (r: Option<usize>)
    ensures
        r matches Some(d) ==> d == depth(v@),
        r is None ==> depth(v@) > usize::MAX,
    decreases v,
{
    match v {
        Variant::List(l) => list_depth(l),
        Variant::Compound(c) => compound_depth(c),
        _ => Some(0),
    }
}

fn compound_depth(c: &Compound) -> (r: Option<usize>)
    ensures
        r matches Some(d) ==> d == depth(NbtValue::Compound(compound_model(*c))),
        r is None ==> depth(NbtValue::Compound(compound_model(*c))) > usize::MAX,
    decreases c,
{
    let ghost es = compound_model(*c);
    let mut m: usize = 0;
    let mut i: usize = 0;
    while i < c.0.len()
        invariant
            i <= c.0@.len(),
            es == compound_model(*c),
            es.len() == c.0@.len(),
            m == entries_depth(es, i as int),
        decreases c.0@.len() - i,
    {
        assert(es[i as int].1 == c.0@[i as int].1@);
        match nesting_depth(&c.0[i].1) {
            Some(d) => {
                if d > m {
                    m = d;
                }
            },
            None => {
                proof {
                    lemma_entries_depth(es, es.len() as int, i as int);
                }
                return None;
            },
        }
        i = i + 1;
    }
    one_deeper(m)
}

fn list_depth(l: &List) -> (r: Option<usize>)
    ensures
        r matches Some(d) ==> d == depth(list_model(*l)),
        r is None ==> depth(list_model(*l)) > usize::MAX,
    decreases l,
{
    match l {
        List::List(lv) => {
            let ghost items = crate::list_values(lv.0@);
            let mut m: usize = 0;
            let mut i: usize = 0;
            while i < lv.0.len()
                invariant
                    i <= lv.0@.len(),
                    items == crate::list_values(lv.0@),
                    items.len() == lv.0@.len(),
                    list_model(*l) == NbtValue::List(TypeTag::List, items),
                    *l == List::List(*lv),
                    m == items_depth(items, i as int),
                decreases lv.0@.len() - i,
            {
                assert(items[i as int] == list_model(lv.0@[i as int]));
                match list_depth(&lv.0[i]) {
                    Some(d) => {
                        if d > m {
                            m = d;
                        }
                    },
                    None => {
                        proof {
                            lemma_items_depth(items, items.len() as int, i as int);
                        }
                        return None;
                    },
                }
                i = i + 1;
            }
            one_deeper(m)
        },
        List::Compound(lv) => {
            let ghost items = crate::compound_values(lv.0@);
            let mut m: usize = 0;
            let mut i: usize = 0;
            while i < lv.0.len()
                invariant
                    i <= lv.0@.len(),
                    items == crate::compound_values(lv.0@),
                    items.len() == lv.0@.len(),
                    list_model(*l) == NbtValue::List(TypeTag::Compound, items),
                    *l == List::Compound(*lv),
                    m == items_depth(items, i as int),
                decreases lv.0@.len() - i,
            {
                assert(items[i as int] == NbtValue::Compound(compound_model(lv.0@[i as int])));
                match compound_depth(&lv.0[i]) {
                    Some(d) => {
                        if d > m {
                            m = d;
                        }
                    },
                    None => {
                        proof {
                            lemma_items_depth(items, items.len() as int, i as int);
                        }
                        return None;
                    },
                }
                i = i + 1;
            }
            one_deeper(m)
        },
        _ => {
            proof {
                let m = list_model(*l);
                if let NbtValue::List(_, items) = m {
                    lemma_flat_items_depth(items, items.len() as int);
                }
            }
            Some(1)
        },
    }
}

/// The SNBT text of a value, as [`snbt`] states it with no indentation.
pub fn to_snbt(v: &Variant) -> (r: Vec<SnbtPiece>)
    requires
        depth(v@) <= usize::MAX,
    ensures
        flat(r@) == snbt(v@, 0),
{
    let mut out: Vec<SnbtPiece> = Vec::new();
    assert(flat(out@) =~= Seq::<SnbtSym>::empty());
    fmt_indented(v, 0, &mut out);
    assert(flat(out@) =~= snbt(v@, 0));
    out
}

/// Writes a list of arrays, an array a line.
#[verifier::rlimit(100)]
#[verifier::spinoff_prover]
fn fmt_array_list_u8(lv: &ListVariant<ListVariant<u8>>, indent: usize, out: &mut Vec<SnbtPiece>)
    requires
        indent + 1 <= usize::MAX,
    ensures
        flat(final(out)@) == flat(old(out)@) + snbt(NbtValue::List(TypeTag::Int8List, crate::int8_list_values(lv.0@)), indent as nat),
{
    let ghost vals = crate::int8_list_values(lv.0@);
    emit(out, '[');
    emit(out, '\n');
    let ghost start = flat(out@);
    let mut i: usize = 0;
    assert(start + block_items(vals, indent as nat, 0) =~= start);
    while i < lv.0.len()
        invariant
            i <= lv.0@.len(),
            vals == crate::int8_list_values(lv.0@),
            vals.len() == lv.0@.len(),
            indent + 1 <= usize::MAX,
            flat(out@) == start + block_items(vals, indent as nat, i as int),
        decreases lv.0@.len() - i,
    {
        let ghost mid = flat(out@);
        emit_tabs(out, indent + 1);
        lv.0[i].fmt_typed_list(out);
        proof {
            let xs = lv.0@[i as int].0@;
            assert(flat(out@) == mid + tabs(indent as nat + 1) + snbt(vals[i as int], indent as nat + 1)) by {
                lemma_primitive_typed(xs, xs.map_values(|x: u8| x as int), 'b', xs.len() as int);
                assert(vals[i as int] == NbtValue::Int8List(xs));
            }
        }
        if i < lv.0.len() - 1 {
            emit(out, ',');
            emit(out, '\n');
        } else {
            emit(out, '\n');
        }
        assert(start + block_items(vals, indent as nat, i as int + 1) =~= start + block_items(vals, indent as nat, i as int)
            + tabs(indent as nat + 1) + snbt(vals[i as int], indent as nat + 1) + block_sep(i as int, vals.len() as int));
        i = i + 1;
    }
    emit_tabs(out, indent);
    emit(out, ']');
}

/// Writes a list of arrays, an array a line.
#[verifier::rlimit(100)]
#[verifier::spinoff_prover]
fn fmt_array_list_u32(lv: &ListVariant<ListVariant<u32>>, indent: usize, out: &mut Vec<SnbtPiece>)
    requires
        indent + 1 <= usize::MAX,
    ensures
        flat(final(out)@) == flat(old(out)@) + snbt(NbtValue::List(TypeTag::Int32List, crate::int32_list_values(lv.0@)), indent as nat),
{
    let ghost vals = crate::int32_list_values(lv.0@);
    emit(out, '[');
    emit(out, '\n');
    let ghost start = flat(out@);
    let mut i: usize = 0;
    assert(start + block_items(vals, indent as nat, 0) =~= start);
    while i < lv.0.len()
        invariant
            i <= lv.0@.len(),
            vals == crate::int32_list_values(lv.0@),
            vals.len() == lv.0@.len(),
            indent + 1 <= usize::MAX,
            flat(out@) == start + block_items(vals, indent as nat, i as int),
        decreases lv.0@.len() - i,
    {
        let ghost mid = flat(out@);
        emit_tabs(out, indent + 1);
        lv.0[i].fmt_typed_list(out);
        proof {
            let xs = lv.0@[i as int].0@;
            assert(flat(out@) == mid + tabs(indent as nat + 1) + snbt(vals[i as int], indent as nat + 1)) by {
                lemma_primitive_typed(xs, xs.map_values(|x: u32| x as int), 'i', xs.len() as int);
                assert(vals[i as int] == NbtValue::Int32List(xs));
            }
        }
        if i < lv.0.len() - 1 {
            emit(out, ',');
            emit(out, '\n');
        } else {
            emit(out, '\n');
        }
        assert(start + block_items(vals, indent as nat, i as int + 1) =~= start + block_items(vals, indent as nat, i as int)
            + tabs(indent as nat + 1) + snbt(vals[i as int], indent as nat + 1) + block_sep(i as int, vals.len() as int));
        i = i + 1;
    }
    emit_tabs(out, indent);
    emit(out, ']');
}

/// Writes a list of arrays, an array a line.
#[verifier::rlimit(100)]
#[verifier::spinoff_prover]
fn fmt_array_list_u64(lv: &ListVariant<ListVariant<u64>>, indent: usize, out: &mut Vec<SnbtPiece>)
    requires
        indent + 1 <= usize::MAX,
    ensures
        flat(final(out)@) == flat(old(out)@) + snbt(NbtValue::List(TypeTag::Int64List, crate::int64_list_values(lv.0@)), indent as nat),
{
    let ghost vals = crate::int64_list_values(lv.0@);
    emit(out, '[');
    emit(out, '\n');
    let ghost start = flat(out@);
    let mut i: usize = 0;
    assert(start + block_items(vals, indent as nat, 0) =~= start);
    while i < lv.0.len()
        invariant
            i <= lv.0@.len(),
            vals == crate::int64_list_values(lv.0@),
            vals.len() == lv.0@.len(),
            indent + 1 <= usize::MAX,
            flat(out@) == start + block_items(vals, indent as nat, i as int),
        decreases lv.0@.len() - i,
    {
        let ghost mid = flat(out@);
        emit_tabs(out, indent + 1);
        lv.0[i].fmt_typed_list(out);
        proof {
            let xs = lv.0@[i as int].0@;
            assert(flat(out@) == mid + tabs(indent as nat + 1) + snbt(vals[i as int], indent as nat + 1)) by {
                lemma_primitive_typed(xs, xs.map_values(|x: u64| x as int), 'l', xs.len() as int);
                assert(vals[i as int] == NbtValue::Int64List(xs));
            }
        }
        if i < lv.0.len() - 1 {
            emit(out, ',');
            emit(out, '\n');
        } else {
            emit(out, '\n');
        }
        assert(start + block_items(vals, indent as nat, i as int + 1) =~= start + block_items(vals, indent as nat, i as int)
            + tabs(indent as nat + 1) + snbt(vals[i as int], indent as nat + 1) + block_sep(i as int, vals.len() as int));
        i = i + 1;
    }
    emit_tabs(out, indent);
    emit(out, ']');
}

} // verus!
