use vstd::prelude::*;

use crate::shape::{lemma_div_after_multiple, ByteOrder, Primitive, Type};
use crate::text::{decimal_digits, push_char, push_decimal};

verus! {

/// Relies on `u16::from_ne_bytes`: the machine stores a `u16` either least
/// or most significant byte first.
#[verifier::external_body]
fn u16_from_native_bytes(first: u8, second: u8) -> (r: u16)
    ensures
        r == first as int + 256 * second as int || r == 256 * first as int + second as int,
{
    u16::from_ne_bytes([first, second])
}

impl ByteOrder {
    /// The byte order of the machine this runs on.
    pub fn native() -> ByteOrder {
        ByteOrder::from_probe(u16_from_native_bytes(1, 0))
    }

    /// The byte order that stored the bytes `1, 0` as the `u16` value `v`:
    /// `1` means least significant byte first.
    pub fn from_probe(v: u16) -> (r: ByteOrder)
        ensures
            r == (if v == 1 {
                ByteOrder::Little
            } else {
                ByteOrder::Big
            }),
    {
        if v == 1 {
            ByteOrder::Little
        } else {
            ByteOrder::Big
        }
    }
}

impl Primitive {
    /// The type's name, as written in Rust source.
    pub fn name(&self) -> (r: String)
        ensures
            r@ == self.suffix(),
    {
        let mut r = String::new();
        self.push_suffix(&mut r);
        r
    }
}

impl Type {
    /// The type as written in Rust source: `u16`, or `[u16; 4]`.
    pub open spec fn spec_text(self) -> Seq<char> {
        match self {
            Type::Primitive(p) => p.suffix(),
            Type::Array(p, n) => seq!['['] + p.suffix() + seq![';', ' '] + decimal_digits(n as nat)
                + seq![']'],
        }
    }

    /// The type as written in Rust source: `u16`, or `[u16; 4]`.
    pub fn to_text(&self) -> (r: String)
        ensures
            r@ == self.spec_text(),
    {
        let mut r = String::new();
        match self {
            Type::Primitive(p) => {
                p.push_suffix(&mut r);
            },
            Type::Array(p, n) => {
                push_char(&mut r, '[');
                p.push_suffix(&mut r);
                push_char(&mut r, ';');
                push_char(&mut r, ' ');
                push_decimal(&mut r, *n);
                push_char(&mut r, ']');
            },
        }
        assert(r@ =~= self.spec_text());
        r
    }
}


/// The whole text emitted for `content`: `[`, the items, `]`; or `None`
/// where the length of `content` is not a whole number of items.
pub open spec fn expansion(typ: Type, content: Seq<u8>, order: ByteOrder) -> Option<Seq<char>> {
    if content.len() % typ.group_size() == 0 {
        Some(seq!['['] + typ.render(content, order) + seq![']'])
    } else {
        None
    }
}

/// The input's length is not a whole number of items of the requested type.
#[derive(Clone, Copy, Debug, PartialEq, Eq)]
pub struct SizeMismatch {
    pub file_len: usize,
    pub typ: Type,
}

/// Turns bytes, handed over in chunks of any size, into literal text.
/// Items are written as soon as they are complete; the bytes of an
/// incomplete item wait for the next chunk.
pub struct Emitter {
    typ: Type,
    order: ByteOrder,
    window: Vec<u8>,
    file_len: usize,
    out: String,
    received: Ghost<Seq<u8>>,
}

/// The longest prefix of `n` bytes that holds whole items of `g` bytes.
pub open spec fn whole_len(n: nat, g: nat) -> nat {
    (n / g) * g
}

impl Emitter {
    /// The requested element shape.
    pub closed spec fn spec_typ(self) -> Type {
        self.typ
    }

    /// The byte order the items are decoded in.
    pub closed spec fn spec_order(self) -> ByteOrder {
        self.order
    }

    /// Every byte handed over so far, in order.
    pub closed spec fn received(self) -> Seq<u8> {
        self.received@
    }

    /// The window holds what follows the whole items received, and the
    /// text holds those items.
    pub closed spec fn wf(self) -> bool {
        let c = whole_len(self.received@.len(), self.typ.group_size());
        &&& self.typ.wf()
        &&& self.file_len == self.received@.len()
        &&& c <= self.received@.len()
        &&& self.window@ == self.received@.skip(c as int)
        &&& self.out@ == seq!['['] + self.typ.render(self.received@.take(c as int), self.order)
    }

    /// An emitter that has received nothing yet.
    pub fn new(typ: Type, order: ByteOrder) -> (e: Emitter)
        requires
            typ.wf(),
        ensures
            e.wf(),
            e.spec_typ() == typ,
            e.spec_order() == order,
            e.received() == Seq::<u8>::empty(),
    {
        let mut out = String::new();
        push_char(&mut out, '[');
        let e = Emitter {
            typ,
            order,
            window: Vec::new(),
            file_len: 0,
            out,
            received: Ghost(Seq::empty()),
        };
        proof {
            typ.lemma_group_positive();
            assert(e.received@.take(0) =~= Seq::<u8>::empty());
            typ.lemma_render_whole(Seq::<u8>::empty(), order);
            assert(e.window@ =~= e.received@.skip(0));
            assert(e.out@ =~= seq!['['] + typ.render(e.received@.take(0), order));
        }
        e
    }

    /// Number of bytes received so far.
    pub fn file_len(&self) -> (r: usize)
        requires
            self.wf(),
        ensures
            r == self.received().len(),
    {
        self.file_len
    }

    /// Takes the next chunk of input and writes every item that is now
    /// complete.
    pub fn feed(&mut self, chunk: &[u8])
        requires
            old(self).wf(),
            old(self).received().len() + chunk@.len() <= usize::MAX,
        ensures
            final(self).wf(),
            final(self).spec_typ() == old(self).spec_typ(),
            final(self).spec_order() == old(self).spec_order(),
            final(self).received() == old(self).received() + chunk@,
    {
        let ghost r0 = self.received@;
        let ghost g = self.typ.group_size();
        let ghost c0 = whole_len(r0.len(), g);
        let ghost r1 = r0 + chunk@;
        self.window.extend_from_slice(chunk);
        self.file_len = self.file_len + chunk.len();
        self.received = Ghost(r1);
        proof {
            self.typ.lemma_group_positive();
            assert(self.window@ =~= r1.skip(c0 as int));
            assert(r1.take(c0 as int) =~= r0.take(c0 as int));
        }
        let written = self.typ.write_bytes(&mut self.out, self.window.as_slice(), self.order);
        let ghost w = self.window@;
        proof {
            self.typ.lemma_render_whole(w, self.order);
            let c1 = c0 + written;
            assert(c0 % g == 0) by {
                vstd::arithmetic::div_mod::lemma_mod_multiples_basic((r0.len() / g) as int, g as int);
            }
            assert(r1.take(c1 as int) =~= r1.take(c0 as int) + w.take(written as int));
            self.typ.lemma_render_concat(r1.take(c0 as int), w.take(written as int), self.order);
            lemma_whole_len_step(r0.len(), chunk@.len(), g, written as nat);
        }
        let rest = self.window.split_off(written);
        self.window = rest;
        proof {
            let c1 = c0 + written;
            assert(w.len() == r1.len() - c0);
            assert(c1 == whole_len(r1.len(), g));
            assert(self.window@ =~= r1.skip(c1 as int));
            assert(self.typ.render(w, self.order) == self.typ.render(w.take(written as int), self.order));
            assert(self.out@ == seq!['['] + self.typ.render(r1.take(c0 as int), self.order)
                + self.typ.render(w, self.order));
            assert(self.out@ =~= seq!['['] + self.typ.render(r1.take(c1 as int), self.order));
        }
    }

    /// The finished text, or the mismatch if the bytes received do not make
    /// a whole number of items.
    pub fn finish(self) -> (r: Result<String, SizeMismatch>)
        requires
            self.wf(),
        ensures
            (match r {
                Ok(s) => expansion(self.spec_typ(), self.received(), self.spec_order()) == Some(
                    s@,
                ),
                Err(e) => expansion(self.spec_typ(), self.received(), self.spec_order()) is None
                    && e.file_len == self.received().len() && e.typ == self.spec_typ(),
            }),
    {
        let Emitter { typ, order, window, file_len, out, received } = self;
        proof {
            typ.lemma_group_positive();
            typ.lemma_render_whole(received@, order);
            vstd::arithmetic::div_mod::lemma_fundamental_div_mod(
                received@.len() as int,
                typ.group_size() as int,
            );
        }
        if window.len() != 0 {
            return Err(SizeMismatch { file_len, typ });
        }
        let mut out = out;
        push_char(&mut out, ']');
        proof {
            let n = received@.len();
            let g = typ.group_size();
            assert(received@.skip(whole_len(n, g) as int).len() == 0);
            let q = n / g;
            let r = n % g;
            assert(n == q * g);
            assert(r == 0) by (nonlinear_arith)
                requires
                    n == q * g,
                    n == g * q + r,
            ;
            assert(received@.take(n as int) =~= received@);
        }
        Ok(out)
    }
}

/// The literal text for the whole of `content`, or the mismatch if its
/// length is not a whole number of items.
pub fn expand(typ: Type, content: &[u8], order: ByteOrder) -> (r: Result<String, SizeMismatch>)
    requires
        typ.wf(),
    ensures
        (match r {
            Ok(s) => expansion(typ, content@, order) == Some(s@),
            Err(e) => expansion(typ, content@, order) is None && e.file_len == content@.len()
                && e.typ == typ,
        }),
{
    let n = content.len();
    assert(n == content@.len());
    let mut e = Emitter::new(typ, order);
    e.feed(content);
    assert(Seq::<u8>::empty() + content@ =~= content@);
    e.finish()
}

proof fn lemma_whole_len_step(n0: nat, m: nat, g: nat, written: nat)
    requires
        g > 0,
        whole_len(n0, g) <= n0,
        written == ((n0 + m - whole_len(n0, g)) as nat / g) * g,
    ensures
        whole_len(n0 + m, g) == whole_len(n0, g) + written,
{
    let q0 = n0 / g;
    let b: nat = (n0 + m - q0 * g) as nat;
    lemma_div_after_multiple(q0, b, g);
    assert(q0 * g + b == n0 + m);
    let qb = b / g;
    assert((q0 + qb) * g == q0 * g + qb * g) by (nonlinear_arith);
}

} // verus!
