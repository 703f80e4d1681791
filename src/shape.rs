use vstd::prelude::*;
use vstd::arithmetic::div_mod::{lemma_div_multiples_vanish_fancy, lemma_fundamental_div_mod};
use vstd::slice::slice_subrange;

use crate::text::{hex_digits, push_char, push_hex};

verus! {

/// A fixed-width unsigned integer type an element can be read as.
#[derive(Clone, Copy, Debug, PartialEq, Eq, Structural)]
pub enum Primitive {
    U8,
    U16,
    U32,
    U64,
    U128,
}

/// A requested element shape: a bare integer, or a fixed-size array of them.
#[derive(Clone, Copy, Debug, PartialEq, Eq, Structural)]
pub enum Type {
    Primitive(Primitive),
    Array(Primitive, usize),
}

/// The order in which the bytes of a multi-byte integer are stored.
#[derive(Clone, Copy, Debug, PartialEq, Eq, Structural)]
pub enum ByteOrder {
    Little,
    Big,
}

impl Primitive {
    /// Width of the integer in bytes.
    pub open spec fn spec_size(self) -> nat {
        match self {
            Primitive::U8 => 1,
            Primitive::U16 => 2,
            Primitive::U32 => 4,
            Primitive::U64 => 8,
            Primitive::U128 => 16,
        }
    }

    /// Width of the integer in bytes.
    pub fn size(&self) -> (r: usize)
        ensures
            r == self.spec_size(),
    {
        match self {
            Primitive::U8 => 1,
            Primitive::U16 => 2,
            Primitive::U32 => 4,
            Primitive::U64 => 8,
            Primitive::U128 => 16,
        }
    }
}


/// Value of bytes read least significant first.
pub open spec fn le_value(b: Seq<u8>) -> nat
    decreases b.len(),
{
    if b.len() == 0 {
        0
    } else {
        b[0] as nat + 256 * le_value(b.drop_first())
    }
}

/// Value of bytes read most significant first.
pub open spec fn be_value(b: Seq<u8>) -> nat
    decreases b.len(),
{
    if b.len() == 0 {
        0
    } else {
        be_value(b.drop_last()) * 256 + b.last() as nat
    }
}

/// `256` raised to the power `n`.
pub open spec fn byte_bound(n: nat) -> nat
    decreases n,
{
    if n == 0 {
        1
    } else {
        256 * byte_bound((n - 1) as nat)
    }
}

proof fn lemma_le_value_bound(b: Seq<u8>)
    ensures
        le_value(b) < byte_bound(b.len()),
    decreases b.len(),
{
    if b.len() > 0 {
        lemma_le_value_bound(b.drop_first());
    }
}

proof fn lemma_be_value_bound(b: Seq<u8>)
    ensures
        be_value(b) < byte_bound(b.len()),
    decreases b.len(),
{
    if b.len() > 0 {
        lemma_be_value_bound(b.drop_last());
    }
}

proof fn lemma_byte_bound_mono(m: nat, n: nat)
    requires
        m <= n,
    ensures
        byte_bound(m) <= byte_bound(n),
    decreases n,
{
    if m < n {
        lemma_byte_bound_mono(m, (n - 1) as nat);
    }
}

impl ByteOrder {
    /// The integer that `b` encodes in this byte order.
    pub open spec fn value(self, b: Seq<u8>) -> nat {
        match self {
            ByteOrder::Little => le_value(b),
            ByteOrder::Big => be_value(b),
        }
    }
}

/// Decodes `bytes[start..start + n]` as one integer in the given byte order.
fn decode(bytes: &[u8], start: usize, n: usize, order: ByteOrder) -> (r: u128)
    requires
        1 <= n <= 16,
        start + n <= bytes@.len(),
    ensures
        r as nat == order.value(bytes@.subrange(start as int, start + n)),
{
    let ghost b = bytes@.subrange(start as int, start + n);
    proof {
        reveal_with_fuel(byte_bound, 17);
        assert(byte_bound(16) == 0x1_0000_0000_0000_0000_0000_0000_0000_0000);
    }
    let mut v: u128 = 0;
    match order {
        ByteOrder::Big => {
            let mut i: usize = 0;
            while i < n
                invariant
                    i <= n <= 16,
                    start + n <= bytes.len(),
                    b == bytes@.subrange(start as int, start + n),
                    v as nat == be_value(b.take(i as int)),
                    byte_bound(16) == 0x1_0000_0000_0000_0000_0000_0000_0000_0000,
                decreases n - i,
            {
                proof {
                    lemma_be_value_bound(b.take(i as int));
                    lemma_byte_bound_mono(i as nat, 15);
                    assert(b.take(i + 1).drop_last() =~= b.take(i as int));
                }
                v = v * 256 + bytes[start + i] as u128;
                i = i + 1;
            }
            assert(b.take(n as int) =~= b);
        },
        ByteOrder::Little => {
            let mut i: usize = n;
            while i > 0
                invariant
                    i <= n <= 16,
                    start + n <= bytes.len(),
                    b == bytes@.subrange(start as int, start + n),
                    v as nat == le_value(b.skip(i as int)),
                    byte_bound(16) == 0x1_0000_0000_0000_0000_0000_0000_0000_0000,
                decreases i,
            {
                proof {
                    lemma_le_value_bound(b.skip(i as int));
                    lemma_byte_bound_mono((n - i) as nat, 15);
                    assert(b.skip(i - 1).drop_first() =~= b.skip(i as int));
                }
                v = v * 256 + bytes[start + i - 1] as u128;
                i = i - 1;
            }
            assert(b.skip(0) =~= b);
        },
    }
    v
}


impl Primitive {
    /// The type suffix written after each literal of this width.
    pub open spec fn suffix(self) -> Seq<char> {
        match self {
            Primitive::U8 => seq!['u', '8'],
            Primitive::U16 => seq!['u', '1', '6'],
            Primitive::U32 => seq!['u', '3', '2'],
            Primitive::U64 => seq!['u', '6', '4'],
            Primitive::U128 => seq!['u', '1', '2', '8'],
        }
    }

    /// The elements that `bytes` holds: one per complete run of `spec_size`
    /// bytes, in order, each decoded in `order`. A shorter tail is not read.
    pub open spec fn values(self, bytes: Seq<u8>, order: ByteOrder) -> Seq<nat> {
        let w = self.spec_size();
        Seq::new(bytes.len() / w, |i: int| order.value(bytes.subrange(i * w, i * w + w)))
    }

    /// One literal: `0x<hex><suffix>, `.
    pub open spec fn literal(self, v: nat) -> Seq<char> {
        seq!['0', 'x'] + hex_digits(v) + self.suffix() + seq![',', ' ']
    }

    /// The literals of `vals`, one after another.
    pub open spec fn render_values(self, vals: Seq<nat>) -> Seq<char>
        decreases vals.len(),
    {
        if vals.len() == 0 {
            Seq::empty()
        } else {
            self.render_values(vals.drop_last()) + self.literal(vals.last())
        }
    }

    /// The text written for `bytes`: the literals of its complete elements.
    pub open spec fn render(self, bytes: Seq<u8>, order: ByteOrder) -> Seq<char> {
        self.render_values(self.values(bytes, order))
    }

    pub(crate) fn push_suffix(&self, out: &mut String)
        ensures
            final(out)@ == old(out)@ + self.suffix(),
    {
        push_char(out, 'u');
        match self {
            Primitive::U8 => {
                push_char(out, '8');
            },
            Primitive::U16 => {
                push_char(out, '1');
                push_char(out, '6');
            },
            Primitive::U32 => {
                push_char(out, '3');
                push_char(out, '2');
            },
            Primitive::U64 => {
                push_char(out, '6');
                push_char(out, '4');
            },
            Primitive::U128 => {
                push_char(out, '1');
                push_char(out, '2');
                push_char(out, '8');
            },
        }
        assert(final(out)@ =~= old(out)@ + self.suffix());
    }

    fn push_literal(&self, out: &mut String, v: u128)
        ensures
            final(out)@ == old(out)@ + self.literal(v as nat),
    {
        let ghost start = out@;
        push_char(out, '0');
        push_char(out, 'x');
        push_hex(out, v);
        self.push_suffix(out);
        push_char(out, ',');
        push_char(out, ' ');
        assert(out@ =~= start + self.literal(v as nat));
    }

    /// Writes a literal for each complete element of `bytes`, decoded in
    /// `order`, and returns how many bytes were consumed; a tail shorter than
    /// one element is left.
    pub fn write_bytes(&self, out: &mut String, bytes: &[u8], order: ByteOrder) -> (written: usize)
        ensures
            written == (bytes@.len() / self.spec_size()) * self.spec_size(),
            final(out)@ == old(out)@ + self.render(bytes@, order),
    {
        let w = self.size();
        let count = bytes.len() / w;
        let ghost vals = self.values(bytes@, order);
        let mut k: usize = 0;
        while k < count
            invariant
                w == self.spec_size(),
                count == bytes@.len() / (w as nat),
                count == bytes.len() / w,
                k <= count,
                vals == self.values(bytes@, order),
                out@ == old(out)@ + self.render_values(vals.take(k as int)),
            decreases count - k,
        {
            proof {
                assert((k as int) * (w as int) + (w as int) <= bytes.len()) by (nonlinear_arith)
                    requires
                        k < count,
                        count == bytes.len() / w,
                        w >= 1,
                ;
            }
            let v = decode(bytes, k * w, w, order);
            self.push_literal(out, v);
            proof {
                assert(vals.take(k + 1).drop_last() =~= vals.take(k as int));
            }
            k = k + 1;
        }
        assert(vals.take(count as int) =~= vals);
        proof {
            assert(count * w <= bytes@.len()) by (nonlinear_arith)
                requires
                    count == bytes@.len() / (w as nat),
                    w >= 1,
            ;
        }
        count * w
    }
}


/// `bytes` cut into consecutive runs of `g` bytes; a shorter tail is dropped.
pub open spec fn chunks(bytes: Seq<u8>, g: nat) -> Seq<Seq<u8>> {
    Seq::new(bytes.len() / g, |i: int| bytes.subrange(i * g, i * g + g))
}

impl Primitive {
    /// One bracketed sub-array per run of bytes in `gs`.
    pub open spec fn render_arrays(self, gs: Seq<Seq<u8>>, order: ByteOrder) -> Seq<char>
        decreases gs.len(),
    {
        if gs.len() == 0 {
            Seq::empty()
        } else {
            self.render_arrays(gs.drop_last(), order) + seq!['['] + self.render(gs.last(), order)
                + seq![']', ',']
        }
    }
}

impl Type {
    /// An array type has at least one element.
    pub open spec fn wf(self) -> bool {
        match self {
            Type::Primitive(_) => true,
            Type::Array(_, n) => n > 0,
        }
    }

    /// The integer type of each element.
    pub open spec fn element(self) -> Primitive {
        match self {
            Type::Primitive(p) => p,
            Type::Array(p, _) => p,
        }
    }

    /// Bytes needed for one emitted item: an integer, or a whole sub-array.
    pub open spec fn group_size(self) -> nat {
        match self {
            Type::Primitive(p) => p.spec_size(),
            Type::Array(p, n) => p.spec_size() * (n as nat),
        }
    }

    /// The text written for the complete items of `bytes`.
    pub open spec fn render(self, bytes: Seq<u8>, order: ByteOrder) -> Seq<char> {
        match self {
            Type::Primitive(p) => p.render(bytes, order),
            Type::Array(p, _) => p.render_arrays(chunks(bytes, self.group_size()), order),
        }
    }

    /// Writes the literals for each complete item of `bytes` and returns
    /// how many bytes were consumed. Fewer bytes than one item consume none.
    pub fn write_bytes(&self, out: &mut String, bytes: &[u8], order: ByteOrder) -> (written: usize)
        requires
            self.wf(),
        ensures
            written == (bytes@.len() / self.group_size()) * self.group_size(),
            final(out)@ == old(out)@ + self.render(bytes@, order),
    {
        match self {
            Type::Primitive(p) => p.write_bytes(out, bytes, order),
            Type::Array(p, n) => {
                let n = *n;
                let w = p.size();
                if n > bytes.len() / w {
                    proof {
                        assert((bytes.len() as nat) / ((w * n) as nat) == 0) by (nonlinear_arith)
                            requires
                                n > bytes.len() / w,
                                w >= 1,
                        ;
                        assert(chunks(bytes@, self.group_size()) =~= Seq::empty());
                    }
                    return 0;
                }
                proof {
                    assert(w * n <= bytes.len()) by (nonlinear_arith)
                        requires
                            n <= bytes.len() / w,
                            w >= 1,
                    ;
                }
                let g = w * n;
                let count = bytes.len() / g;
                let ghost gs = chunks(bytes@, g as nat);
                let mut j: usize = 0;
                while j < count
                    invariant
                        g == self.group_size(),
                        g >= 1,
                        w == p.spec_size(),
                        count == bytes.len() / g,
                        j <= count,
                        gs == chunks(bytes@, g as nat),
                        out@ == old(out)@ + p.render_arrays(gs.take(j as int), order),
                    decreases count - j,
                {
                    proof {
                        assert((j as int) * (g as int) + (g as int) <= bytes.len()) by (nonlinear_arith)
                            requires
                                j < count,
                                count == bytes.len() / g,
                                g >= 1,
                        ;
                    }
                    let part = slice_subrange(bytes, j * g, j * g + g);
                    push_char(out, '[');
                    p.write_bytes(out, part, order);
                    push_char(out, ']');
                    push_char(out, ',');
                    proof {
                        assert(gs.take(j + 1).drop_last() =~= gs.take(j as int));
                        assert(part@ == gs[j as int]);
                    }
                    j = j + 1;
                }
                assert(gs.take(count as int) =~= gs);
                proof {
                    assert(count * g <= bytes.len()) by (nonlinear_arith)
                        requires
                            count == bytes.len() / g,
                            g >= 1,
                    ;
                }
                count * g
            },
        }
    }
}


/// Whole multiples of `g` pass through division by `g` unchanged.
pub(crate) proof fn lemma_div_after_multiple(q: nat, b: nat, g: nat)
    requires
        g > 0,
    ensures
        (q * g + b) / g == q + b / g,
{
    lemma_fundamental_div_mod(b as int, g as int);
    let qb = b / g;
    let rb = b % g;
    assert(q * g + b == g * (q + qb) + rb) by (nonlinear_arith)
        requires
            b == g * qb + rb,
    ;
    lemma_div_multiples_vanish_fancy((q + qb) as int, rb as int, g as int);
}

/// Cutting `a + b` into runs of `g` bytes, where `a` holds whole runs,
/// cuts `a` and `b` apart.
pub proof fn lemma_chunks_concat(a: Seq<u8>, b: Seq<u8>, g: nat)
    requires
        g > 0,
        a.len() % g == 0,
    ensures
        chunks(a + b, g) == chunks(a, g) + chunks(b, g),
{
    lemma_fundamental_div_mod(a.len() as int, g as int);
    let qa = a.len() / g;
    assert(a.len() == qa * g) by (nonlinear_arith)
        requires
            a.len() == g * qa + a.len() % g,
            a.len() % g == 0,
    ;
    lemma_div_after_multiple(qa, b.len(), g);
    let l = chunks(a + b, g);
    let r = chunks(a, g) + chunks(b, g);
    assert forall|i: int| 0 <= i < l.len() implies l[i] == r[i] by {
        if i < qa {
            assert(i * g + g <= qa * g) by (nonlinear_arith)
                requires
                    i < qa,
                    0 <= i,
            ;
            assert(l[i] =~= r[i]);
        } else {
            let j = i - qa;
            assert(i * g == qa * g + j * g) by (nonlinear_arith)
                requires
                    j == i - qa,
            ;
            assert(j * g + g <= b.len()) by (nonlinear_arith)
                requires
                    0 <= j < b.len() / g,
                    g > 0,
            ;
            assert(l[i] =~= r[i]);
        }
    }
    assert(l =~= r);
}

/// Only whole runs matter: dropping the incomplete tail changes no run.
pub proof fn lemma_chunks_whole(x: Seq<u8>, g: nat)
    requires
        g > 0,
    ensures
        (x.len() / g) * g <= x.len(),
        chunks(x.take(((x.len() / g) * g) as int), g) == chunks(x, g),
{
    let q = x.len() / g;
    assert(q * g <= x.len()) by (nonlinear_arith)
        requires
            q == x.len() / g,
            g > 0,
    ;
    lemma_div_after_multiple(q, 0, g);
    let y = x.take((q * g) as int);
    assert forall|i: int| 0 <= i < q implies chunks(y, g)[i] =~= chunks(x, g)[i] by {
        assert(i * g + g <= q * g) by (nonlinear_arith)
            requires
                i < q,
                0 <= i,
        ;
    }
    assert(chunks(y, g) =~= chunks(x, g));
}

impl Primitive {
    proof fn lemma_values_are_chunks(self, x: Seq<u8>, order: ByteOrder)
        ensures
            self.values(x, order) == chunks(x, self.spec_size()).map_values(
                |c: Seq<u8>| order.value(c),
            ),
    {
        assert(self.values(x, order) =~= chunks(x, self.spec_size()).map_values(
            |c: Seq<u8>| order.value(c),
        ));
    }

    proof fn lemma_render_values_concat(self, a: Seq<nat>, b: Seq<nat>)
        ensures
            self.render_values(a + b) == self.render_values(a) + self.render_values(b),
        decreases b.len(),
    {
        if b.len() == 0 {
            assert(a + b =~= a);
            assert(self.render_values(a) + self.render_values(b) =~= self.render_values(a));
        } else {
            assert((a + b).drop_last() =~= a + b.drop_last());
            self.lemma_render_values_concat(a, b.drop_last());
            assert(self.render_values(a + b) =~= self.render_values(a) + self.render_values(b));
        }
    }

    proof fn lemma_render_arrays_concat(self, a: Seq<Seq<u8>>, b: Seq<Seq<u8>>, order: ByteOrder)
        ensures
            self.render_arrays(a + b, order) == self.render_arrays(a, order) + self.render_arrays(
                b,
                order,
            ),
        decreases b.len(),
    {
        if b.len() == 0 {
            assert(a + b =~= a);
            assert(self.render_arrays(a, order) + self.render_arrays(b, order)
                =~= self.render_arrays(a, order));
        } else {
            assert((a + b).drop_last() =~= a + b.drop_last());
            self.lemma_render_arrays_concat(a, b.drop_last(), order);
            assert(self.render_arrays(a + b, order) =~= self.render_arrays(a, order)
                + self.render_arrays(b, order));
        }
    }
}

impl Type {
    /// Rendering `a + b`, where `a` holds whole items, renders `a` and then `b`.
    pub proof fn lemma_render_concat(self, a: Seq<u8>, b: Seq<u8>, order: ByteOrder)
        requires
            self.wf(),
            a.len() % self.group_size() == 0,
        ensures
            self.render(a + b, order) == self.render(a, order) + self.render(b, order),
    {
        let p = self.element();
        self.lemma_group_positive();
        lemma_chunks_concat(a, b, self.group_size());
        match self {
            Type::Primitive(_) => {
                p.lemma_values_are_chunks(a + b, order);
                p.lemma_values_are_chunks(a, order);
                p.lemma_values_are_chunks(b, order);
                let f = |c: Seq<u8>| order.value(c);
                assert((chunks(a, p.spec_size()) + chunks(b, p.spec_size())).map_values(f)
                    =~= chunks(a, p.spec_size()).map_values(f) + chunks(b, p.spec_size()).map_values(f));
                p.lemma_render_values_concat(p.values(a, order), p.values(b, order));
            },
            Type::Array(_, _) => {
                p.lemma_render_arrays_concat(
                    chunks(a, self.group_size()),
                    chunks(b, self.group_size()),
                    order,
                );
            },
        }
    }

    /// Rendering reads whole items only: an incomplete tail adds nothing.
    pub proof fn lemma_render_whole(self, x: Seq<u8>, order: ByteOrder)
        requires
            self.wf(),
        ensures
            (x.len() / self.group_size()) * self.group_size() <= x.len(),
            self.render(x.take(((x.len() / self.group_size()) * self.group_size()) as int), order)
                == self.render(x, order),
    {
        let p = self.element();
        self.lemma_group_positive();
        lemma_chunks_whole(x, self.group_size());
        let y = x.take(((x.len() / self.group_size()) * self.group_size()) as int);
        match self {
            Type::Primitive(_) => {
                p.lemma_values_are_chunks(x, order);
                p.lemma_values_are_chunks(y, order);
            },
            Type::Array(_, _) => {},
        }
    }

    /// Each item takes at least one byte.
    pub proof fn lemma_group_positive(self)
        requires
            self.wf(),
        ensures
            self.group_size() > 0,
    {
        match self {
            Type::Primitive(_) => {},
            Type::Array(p, n) => {
                assert(p.spec_size() * (n as nat) > 0) by (nonlinear_arith)
                    requires
                        p.spec_size() > 0,
                        n > 0,
                ;
            },
        }
    }
}

} // verus!
