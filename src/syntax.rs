use vstd::prelude::*;
use vstd::string::StrSliceExecFns;

use crate::shape::{Primitive, Type};
use crate::text::{
    find_char, find_space, index_of, parse_usize, remove_spaces, same_text, space_index, trim,
    trimmed, usize_from_text, without_spaces, lemma_index_of_bound, lemma_space_index_bound,
};

verus! {

/// Why an argument text was rejected.
#[derive(Clone, Debug, PartialEq, Eq)]
pub enum ParseError {
    /// A quoted file path has no closing quote.
    UnterminatedPath,
    /// `as` is followed by nothing.
    MissingType,
    /// The word after the file path is not `as`; holds that word.
    UnexpectedToken(String),
    /// An array expression has no `;`; holds the expression.
    ArrayMissingSize(String),
    /// An array expression has more than one `;`; holds the expression.
    ArraySuperfluousSeparator(String),
    /// An array's element type is not a supported integer; holds the
    /// expression and the element type.
    ArrayInvalidElementType(String, String),
    /// An array's size is not a positive `usize`; holds the expression.
    ArrayInvalidSize(String),
    /// An array expression lacks its closing `]`; holds the expression.
    ArrayUnclosedBrackets(String),
    /// The type is neither a supported integer nor an array; holds it.
    UnsupportedType(String),
    /// The file path is empty.
    EmptyFilePath,
}

/// A [`ParseError`] with its texts as character sequences.
pub enum ParseErrorModel {
    UnterminatedPath,
    MissingType,
    UnexpectedToken(Seq<char>),
    ArrayMissingSize(Seq<char>),
    ArraySuperfluousSeparator(Seq<char>),
    ArrayInvalidElementType(Seq<char>, Seq<char>),
    ArrayInvalidSize(Seq<char>),
    ArrayUnclosedBrackets(Seq<char>),
    UnsupportedType(Seq<char>),
    EmptyFilePath,
}

impl View for ParseError {
    type V = ParseErrorModel;

    open spec fn view(&self) -> ParseErrorModel {
        match self {
            ParseError::UnterminatedPath => ParseErrorModel::UnterminatedPath,
            ParseError::MissingType => ParseErrorModel::MissingType,
            ParseError::UnexpectedToken(w) => ParseErrorModel::UnexpectedToken(w@),
            ParseError::ArrayMissingSize(x) => ParseErrorModel::ArrayMissingSize(x@),
            ParseError::ArraySuperfluousSeparator(x) => ParseErrorModel::ArraySuperfluousSeparator(
                x@,
            ),
            ParseError::ArrayInvalidElementType(x, t) => ParseErrorModel::ArrayInvalidElementType(
                x@,
                t@,
            ),
            ParseError::ArrayInvalidSize(x) => ParseErrorModel::ArrayInvalidSize(x@),
            ParseError::ArrayUnclosedBrackets(x) => ParseErrorModel::ArrayUnclosedBrackets(x@),
            ParseError::UnsupportedType(t) => ParseErrorModel::UnsupportedType(t@),
            ParseError::EmptyFilePath => ParseErrorModel::EmptyFilePath,
        }
    }
}

/// The integer type that `s` names, if any.
pub open spec fn primitive_named(s: Seq<char>) -> Option<Primitive> {
    if s == seq!['u', '8'] {
        Some(Primitive::U8)
    } else if s == seq!['u', '1', '6'] {
        Some(Primitive::U16)
    } else if s == seq!['u', '3', '2'] {
        Some(Primitive::U32)
    } else if s == seq!['u', '6', '4'] {
        Some(Primitive::U64)
    } else if s == seq!['u', '1', '2', '8'] {
        Some(Primitive::U128)
    } else {
        None
    }
}

/// The outcome of reading `s` as a type: `u8`, `u16`, `u32`, `u64`, `u128`,
/// or `[<integer>;<size>]` with a positive size.
pub open spec fn parse_type(s: Seq<char>) -> Result<Type, ParseErrorModel> {
    if s.len() == 0 {
        Err(ParseErrorModel::MissingType)
    } else if primitive_named(s) is Some {
        Ok(Type::Primitive(primitive_named(s)->0))
    } else if s[0] != '[' {
        Err(ParseErrorModel::UnsupportedType(s))
    } else if s.len() < 2 || s.last() != ']' {
        Err(ParseErrorModel::ArrayUnclosedBrackets(s))
    } else {
        let inner = s.subrange(1, s.len() - 1);
        let k = index_of(inner, ';');
        if k == inner.len() {
            Err(ParseErrorModel::ArrayMissingSize(s))
        } else {
            let elem = inner.take(k as int);
            let size = inner.skip(k + 1 as int);
            if index_of(size, ';') < size.len() {
                Err(ParseErrorModel::ArraySuperfluousSeparator(s))
            } else {
                match primitive_named(elem) {
                    None => Err(ParseErrorModel::ArrayInvalidElementType(s, elem)),
                    Some(p) => match usize_from_text(size) {
                        Some(n) => if n > 0 {
                            Ok(Type::Array(p, n))
                        } else {
                            Err(ParseErrorModel::ArrayInvalidSize(s))
                        },
                        None => Err(ParseErrorModel::ArrayInvalidSize(s)),
                    },
                }
            }
        }
    }
}

/// `r` with its error seen as a [`ParseErrorModel`].
pub open spec fn type_outcome(r: Result<Type, ParseError>) -> Result<Type, ParseErrorModel> {
    match r {
        Ok(t) => Ok(t),
        Err(e) => Err(e@),
    }
}

fn primitive_of(s: &str) -> (r: Option<Primitive>)
    ensures
        r == primitive_named(s@),
{
    proof {
        reveal_strlit("u8");
        reveal_strlit("u16");
        reveal_strlit("u32");
        reveal_strlit("u64");
        reveal_strlit("u128");
    }
    if same_text(s, "u8") {
        assert("u8"@ =~= seq!['u', '8']);
        Some(Primitive::U8)
    } else if same_text(s, "u16") {
        assert("u16"@ =~= seq!['u', '1', '6']);
        Some(Primitive::U16)
    } else if same_text(s, "u32") {
        assert("u32"@ =~= seq!['u', '3', '2']);
        Some(Primitive::U32)
    } else if same_text(s, "u64") {
        assert("u64"@ =~= seq!['u', '6', '4']);
        Some(Primitive::U64)
    } else if same_text(s, "u128") {
        assert("u128"@ =~= seq!['u', '1', '2', '8']);
        Some(Primitive::U128)
    } else {
        assert("u8"@ =~= seq!['u', '8']);
        assert("u16"@ =~= seq!['u', '1', '6']);
        assert("u32"@ =~= seq!['u', '3', '2']);
        assert("u64"@ =~= seq!['u', '6', '4']);
        assert("u128"@ =~= seq!['u', '1', '2', '8']);
        None
    }
}

fn owned(s: &str) -> (r: String)
    ensures
        r@ == s@,
{
    s.to_owned()
}


impl Type {
    /// Reads a type: `u8`, `u16`, `u32`, `u64`, `u128`, or an array
    /// `[<integer>;<size>]` whose size is a positive `usize`.
    pub fn parse(input: &str) -> (r: Result<Type, ParseError>)
        ensures
            type_outcome(r) == parse_type(input@),
            r matches Ok(t) ==> t.wf(),
    {
        let n = input.unicode_len();
        if n == 0 {
            return Err(ParseError::MissingType);
        }
        if let Some(p) = primitive_of(input) {
            return Ok(Type::Primitive(p));
        }
        if input.get_char(0) != '[' {
            return Err(ParseError::UnsupportedType(owned(input)));
        }
        if n < 2 || input.get_char(n - 1) != ']' {
            return Err(ParseError::ArrayUnclosedBrackets(owned(input)));
        }
        let inner = input.substring_char(1, n - 1);
        let m = n - 2;
        proof {
            lemma_index_of_bound(inner@, ';');
        }
        let k = find_char(inner, 0, ';');
        assert(inner@.skip(0) =~= inner@);
        if k == m {
            return Err(ParseError::ArrayMissingSize(owned(input)));
        }
        let elem = inner.substring_char(0, k);
        let size = inner.substring_char(k + 1, m);
        let j = find_char(size, 0, ';');
        assert(size@.skip(0) =~= size@);
        assert(size@ =~= inner@.skip(k + 1));
        if j < size.unicode_len() {
            return Err(ParseError::ArraySuperfluousSeparator(owned(input)));
        }
        match primitive_of(elem) {
            None => Err(ParseError::ArrayInvalidElementType(owned(input), owned(elem))),
            Some(p) => match parse_usize(size) {
                Some(count) => {
                    if count > 0 {
                        Ok(Type::Array(p, count))
                    } else {
                        Err(ParseError::ArrayInvalidSize(owned(input)))
                    }
                },
                None => Err(ParseError::ArrayInvalidSize(owned(input))),
            },
        }
    }
}


/// What follows the file path: nothing, or `as` and a type.
pub open spec fn parse_after_path(file: Seq<char>, rest: Seq<char>) -> Result<
    (Seq<char>, Type),
    ParseErrorModel,
> {
    let r = trim(rest);
    if r.len() == 0 {
        Ok((file, Type::Primitive(Primitive::U8)))
    } else {
        let k = space_index(r);
        let word = r.take(k as int);
        if word == seq!['a', 's'] {
            match parse_type(remove_spaces(r.skip(k as int))) {
                Ok(t) => Ok((file, t)),
                Err(e) => Err(e),
            }
        } else {
            Err(ParseErrorModel::UnexpectedToken(word))
        }
    }
}

/// The outcome of reading an argument text `<file-path> [as <type>]`: the
/// path, quoted or as the first word, and the type, `u8` where none is
/// given. A path that is empty once white space is trimmed is rejected.
pub open spec fn parse_input(s: Seq<char>) -> Result<(Seq<char>, Type), ParseErrorModel> {
    let t = trim(s);
    let found = if t.len() > 0 && t[0] == '"' {
        let body = t.drop_first();
        let k = index_of(body, '"');
        if k == body.len() {
            Err(ParseErrorModel::UnterminatedPath)
        } else {
            parse_after_path(body.take(k as int), body.skip(k + 1 as int))
        }
    } else {
        let k = space_index(t);
        parse_after_path(t.take(k as int), t.skip(k as int))
    };
    match found {
        Ok((file, typ)) => if trim(file).len() == 0 {
            Err(ParseErrorModel::EmptyFilePath)
        } else {
            Ok((file, typ))
        },
        Err(e) => Err(e),
    }
}

/// A parsed argument text: which file to read, and as what.
pub struct Input<'a> {
    pub file: &'a str,
    pub typ: Type,
}

/// `r` seen through views.
pub open spec fn input_outcome(r: Result<Input, ParseError>) -> Result<
    (Seq<char>, Type),
    ParseErrorModel,
> {
    match r {
        Ok(i) => Ok((i.file@, i.typ)),
        Err(e) => Err(e@),
    }
}

fn type_after_path(rest: &str) -> (r: Result<Type, ParseError>)
    ensures
        (match r {
            Ok(t) => parse_after_path(Seq::empty(), rest@) == Ok::<
                (Seq<char>, Type),
                ParseErrorModel,
            >((Seq::empty(), t)),
            Err(e) => parse_after_path(Seq::empty(), rest@) == Err::<
                (Seq<char>, Type),
                ParseErrorModel,
            >(e@),
        }),
        r matches Ok(t) ==> t.wf(),
{
    let r = trimmed(rest);
    let n = r.unicode_len();
    if n == 0 {
        return Ok(Type::Primitive(Primitive::U8));
    }
    proof {
        lemma_space_index_bound(r@);
    }
    let k = find_space(r, 0);
    assert(r@.skip(0) =~= r@);
    let word = r.substring_char(0, k);
    proof {
        reveal_strlit("as");
        assert("as"@ =~= seq!['a', 's']);
    }
    if same_text(word, "as") {
        let arg = without_spaces(r.substring_char(k, n));
        assert(r@.subrange(k as int, n as int) =~= r@.skip(k as int));
        Type::parse(arg.as_str())
    } else {
        Err(ParseError::UnexpectedToken(owned(word)))
    }
}

impl<'a> Input<'a> {
    /// Reads an argument text `<file-path> [as <type>]`. The path is either
    /// quoted, and ends at the next `"`, or is the first word; one that is
    /// only white space is rejected.
    pub fn parse(input: &'a str) -> (r: Result<Input<'a>, ParseError>)
        ensures
            input_outcome(r) == parse_input(input@),
            r matches Ok(i) ==> i.typ.wf(),
    {
        let t = trimmed(input);
        let n = t.unicode_len();
        let file;
        let typ;
        if n > 0 && t.get_char(0) == '"' {
            let body = t.substring_char(1, n);
            proof {
                lemma_index_of_bound(body@, '"');
            }
            let k = find_char(body, 0, '"');
            assert(body@.skip(0) =~= body@);
            assert(body@ =~= t@.drop_first());
            if k == n - 1 {
                return Err(ParseError::UnterminatedPath);
            }
            file = body.substring_char(0, k);
            let rest = body.substring_char(k + 1, n - 1);
            assert(rest@ =~= body@.skip(k + 1));
            typ = type_after_path(rest);
        } else {
            proof {
                lemma_space_index_bound(t@);
            }
            let k = find_space(t, 0);
            assert(t@.skip(0) =~= t@);
            file = t.substring_char(0, k);
            let rest = t.substring_char(k, n);
            assert(rest@ =~= t@.skip(k as int));
            typ = type_after_path(rest);
        }
        match typ {
            Ok(typ) => {
                if trimmed(file).unicode_len() == 0 {
                    Err(ParseError::EmptyFilePath)
                } else {
                    Ok(Input { file, typ })
                }
            },
            Err(e) => Err(e),
        }
    }
}

} // verus!
