use vstd::prelude::*;

use crate::shape::{be_value, chunks, le_value, ByteOrder, Primitive, Type};
use crate::stream::expansion;
use crate::syntax::{parse_input, parse_type, primitive_named, ParseErrorModel};
use crate::text::{
    hex_digits, hex_value, index_of, is_digits, is_space, lemma_hex_round_trip,
    lemma_index_of_concat, lemma_remove_spaces_concat, lemma_remove_spaces_none, remove_spaces,
    space_index, trim, trim_end, trim_start, usize_from_text,
};

verus! {

/// At 8-bit width the content comes back unchanged: one literal per byte,
/// in order, whose digits read back as that byte, whatever the byte order.
pub proof fn u8_round_trip(content: Seq<u8>, order: ByteOrder)
    ensures
        Primitive::U8.values(content, order) == content.map_values(|b: u8| b as nat),
        expansion(Type::Primitive(Primitive::U8), content, order) == Some(
            seq!['['] + Primitive::U8.render_values(content.map_values(|b: u8| b as nat)) + seq![
                ']',
            ],
        ),
        forall|i: int|
            0 <= i < content.len() ==> hex_value(hex_digits(#[trigger] content[i] as nat))
                == content[i],
{
    let vals = Primitive::U8.values(content, order);
    assert forall|i: int| 0 <= i < content.len() implies vals[i] == content[i] as nat by {
        let one = content.subrange(i * 1, i * 1 + 1);
        assert(one.drop_first() =~= Seq::<u8>::empty());
        assert(one.drop_last() =~= Seq::<u8>::empty());
        assert(le_value(one) == one[0] as nat + 256 * le_value(one.drop_first()));
        assert(be_value(one) == be_value(one.drop_last()) * 256 + one.last() as nat);
    }
    assert(vals =~= content.map_values(|b: u8| b as nat));
    assert forall|i: int| 0 <= i < content.len() implies hex_value(
        hex_digits(#[trigger] content[i] as nat),
    ) == content[i] by {
        lemma_hex_round_trip(content[i] as nat);
    }
}

/// An `n`-byte integer type yields one element for each whole `n` bytes of
/// the content, the `i`-th decoded from bytes `i * n .. i * n + n`.
pub proof fn width_consistency(p: Primitive, content: Seq<u8>, order: ByteOrder)
    ensures
        p.values(content, order).len() == content.len() / p.spec_size(),
        forall|i: int|
            0 <= i < content.len() / p.spec_size() ==> #[trigger] p.values(content, order)[i]
                == order.value(
                content.subrange(i * p.spec_size(), i * p.spec_size() + p.spec_size()),
            ),
        content.len() % p.spec_size() == 0 ==> expansion(Type::Primitive(p), content, order)
            == Some(seq!['['] + p.render_values(p.values(content, order)) + seq![']']),
{
}

/// Content whose length is not a whole number of items is rejected, and
/// any other content is accepted: nothing is cut off or padded.
pub proof fn size_mismatch_rejected(typ: Type, content: Seq<u8>, order: ByteOrder)
    requires
        typ.wf(),
    ensures
        expansion(typ, content, order) is None <==> content.len() % typ.group_size() != 0,
{
}

/// An array type of `n` elements yields one sub-array per whole group of
/// `n` elements' bytes, each holding exactly `n` elements.
pub proof fn array_shape(p: Primitive, n: usize, content: Seq<u8>, order: ByteOrder)
    requires
        n > 0,
    ensures
        Type::Array(p, n).group_size() == p.spec_size() * n,
        chunks(content, Type::Array(p, n).group_size()).len() == content.len() / Type::Array(
            p,
            n,
        ).group_size(),
        forall|i: int|
            0 <= i < chunks(content, Type::Array(p, n).group_size()).len() ==> p.values(
                #[trigger] chunks(content, Type::Array(p, n).group_size())[i],
                order,
            ).len() == n,
{
    let w = p.spec_size();
    let g = Type::Array(p, n).group_size();
    assert(g / w == n as nat) by (nonlinear_arith)
        requires
            w > 0,
            g == w * n,
    ;
    assert(g > 0) by (nonlinear_arith)
        requires
            w > 0,
            n > 0,
            g == w * n,
    ;
    assert forall|i: int| 0 <= i < chunks(content, g).len() implies p.values(
        #[trigger] chunks(content, g)[i],
        order,
    ).len() == n by {
        assert(i * g + g <= content.len()) by (nonlinear_arith)
            requires
                0 <= i < content.len() / g,
                g > 0,
        ;
        assert(chunks(content, g)[i].len() == g);
    }
}

/// A parsed array type never has zero elements.
pub proof fn parsed_arrays_are_nonempty(s: Seq<char>)
    ensures
        parse_type(s) matches Ok(t) ==> t.wf(),
{
}

/// An array expression whose size reads as zero is rejected at parse time.
pub proof fn zero_size_rejected(elem: Seq<char>, size: Seq<char>)
    requires
        primitive_named(elem) is Some,
        usize_from_text(size) == Some(0usize),
    ensures
        ({
            let s = seq!['['] + elem + seq![';'] + size + seq![']'];
            parse_type(s) == Err::<Type, ParseErrorModel>(ParseErrorModel::ArrayInvalidSize(s))
        }),
{
    let s = seq!['['] + elem + seq![';'] + size + seq![']'];
    let inner = s.subrange(1, s.len() - 1);
    assert(inner =~= elem + (seq![';'] + size));
    assert(forall|i: int| 0 <= i < elem.len() ==> elem[i] != ';');
    lemma_index_of_concat(elem, seq![';'] + size, ';');
    assert(index_of(seq![';'] + size, ';') == 0);
    let k = index_of(inner, ';');
    assert(k == elem.len());
    assert(inner.take(k as int) =~= elem);
    assert(inner.skip(k + 1 as int) =~= size);
    let d = if size.len() > 0 && size[0] == '+' {
        size.drop_first()
    } else {
        size
    };
    assert(is_digits(d));
    assert forall|i: int| 0 <= i < size.len() implies size[i] != ';' by {
        if size.len() > 0 && size[0] == '+' {
            if i > 0 {
                assert(size[i] == d[i - 1]);
            }
        } else {
            assert(size[i] == d[i]);
        }
    }
    lemma_index_of_concat(size, Seq::<char>::empty(), ';');
    assert(size + Seq::<char>::empty() =~= size);
    assert(s[0] == '[');
    assert(primitive_named(s) is None);
}

/// A whole argument text `"<path>" as [<integer>;<size>]` whose size reads
/// as zero is rejected at parse time, whatever the path names.
pub proof fn zero_size_input_rejected(path: Seq<char>, elem: Seq<char>, size: Seq<char>)
    requires
        forall|i: int| 0 <= i < path.len() ==> path[i] != '"',
        primitive_named(elem) is Some,
        usize_from_text(size) == Some(0usize),
    ensures
        ({
            let arr = seq!['['] + elem + seq![';'] + size + seq![']'];
            let s = seq!['"'] + path + seq!['"', ' ', 'a', 's', ' '] + arr;
            parse_input(s) == Err::<(Seq<char>, Type), ParseErrorModel>(
                ParseErrorModel::ArrayInvalidSize(arr),
            )
        }),
{
    let arr = seq!['['] + elem + seq![';'] + size + seq![']'];
    let s = seq!['"'] + path + seq!['"', ' ', 'a', 's', ' '] + arr;
    zero_size_rejected(elem, size);
    // the text has nothing to trim
    assert(s[0] == '"');
    assert(s.last() == ']');
    assert(trim_start(s) == s);
    assert(trim_end(s) == s);
    assert(trim(s) == s);
    // the quoted path
    let body = s.drop_first();
    let tail = seq!['"', ' ', 'a', 's', ' '] + arr;
    assert(body =~= path + tail);
    lemma_index_of_concat(path, tail, '"');
    assert(index_of(tail, '"') == 0);
    let k = index_of(body, '"');
    assert(k == path.len());
    assert(body.take(k as int) =~= path);
    let rest = body.skip(k + 1 as int);
    assert(rest =~= seq![' ', 'a', 's', ' '] + arr);
    // `as`, then the type text
    let r = seq!['a', 's', ' '] + arr;
    assert(rest.drop_first() =~= r);
    assert(is_space(rest[0]));
    assert(!is_space(r[0]));
    assert(trim_start(rest) == trim_start(r));
    assert(trim_start(r) == r);
    assert(r.last() == ']');
    assert(trim_end(r) == r);
    assert(trim(rest) == r);
    let r1 = seq!['s', ' '] + arr;
    let r2 = seq![' '] + arr;
    assert(r.drop_first() =~= r1);
    assert(r1.drop_first() =~= r2);
    assert(!is_space(r1[0]));
    assert(is_space(r2[0]));
    assert(space_index(r2) == 0);
    assert(space_index(r1) == 1);
    assert(space_index(r) == 2);
    assert(r.take(2) =~= seq!['a', 's']);
    assert(r.skip(2) =~= r2);
    // white space taken out of the type text leaves it as it is
    lemma_remove_spaces_concat(seq![' '], arr);
    let sp = seq![' '];
    assert(sp.drop_last() =~= Seq::<char>::empty());
    assert(sp.last() == ' ' && is_space(sp.last()));
    assert(remove_spaces(sp) == remove_spaces(sp.drop_last()));
    assert(remove_spaces(Seq::<char>::empty()) == Seq::<char>::empty());
    let d = if size.len() > 0 && size[0] == '+' {
        size.drop_first()
    } else {
        size
    };
    assert(is_digits(d));
    assert forall|i: int| 0 <= i < arr.len() implies !is_space(arr[i]) by {
        if 1 + elem.len() + 1 <= i < 1 + elem.len() + 1 + size.len() {
            let j = i - (1 + elem.len() + 1);
            assert(arr[i] == size[j]);
            if size.len() > 0 && size[0] == '+' && j > 0 {
                assert(size[j] == d[j - 1]);
            } else if !(size.len() > 0 && size[0] == '+') {
                assert(size[j] == d[j]);
            }
        }
    }
    lemma_remove_spaces_none(arr);
    assert(Seq::<char>::empty() + arr =~= arr);
    assert(remove_spaces(r.skip(2)) == arr);
}

/// Empty content read as bytes gives an empty array and no error.
pub proof fn empty_content(order: ByteOrder)
    ensures
        expansion(Type::Primitive(Primitive::U8), Seq::<u8>::empty(), order) == Some(
            seq!['[', ']'],
        ),
{
    assert(Primitive::U8.values(Seq::<u8>::empty(), order) =~= Seq::<nat>::empty());
    assert(seq!['['] + Seq::<char>::empty() + seq![']'] =~= seq!['[', ']']);
}

} // verus!
