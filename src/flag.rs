use vstd::prelude::*;

use crate::error::{AppError, ErrorView};
use crate::number::{
    integer_of, integer_list_of, is_decimal, is_decimal_text, parse_integer, parse_integer_list,
};
use crate::text::{join, joined, same_text, text_of, texts};

verus! {

/// The kinds of value a flag accepts.
#[derive(Debug, Clone, Copy, PartialEq, Eq, Structural)]
pub enum FlagType {
    /// Presence alone sets the flag (`--verbose`).
    Bool,
    /// One string (`--name Rafael`).
    String,
    /// A signed 64-bit integer (`--age 25`).
    Integer,
    /// A decimal real number (`--price 10.5`).
    Float,
    /// Strings gathered from repeated occurrences (`--tag a --tag b`).
    StringList,
    /// Integers, comma-separated within one token (`--ids 1,2,3`).
    IntegerList,
}

pub open spec fn type_description(t: FlagType) -> Seq<char> {
    match t {
        FlagType::Bool => "boolean"@,
        FlagType::String => "string"@,
        FlagType::Float => "float"@,
        FlagType::Integer => "integer"@,
        FlagType::StringList => "string list"@,
        FlagType::IntegerList => "integer list"@,
    }
}

impl FlagType {
    /// A readable name of the type.
    pub fn description(&self) -> (r: &'static str)
        ensures
            r@ == type_description(*self),
    {
        match self {
            FlagType::Bool => "boolean",
            FlagType::String => "string",
            FlagType::Float => "float",
            FlagType::Integer => "integer",
            FlagType::StringList => "string list",
            FlagType::IntegerList => "integer list",
        }
    }
}

/// A typed flag value. A float is kept as the decimal text it was given in,
/// which always reads as an `f64`.
#[derive(Debug, PartialEq)]
pub enum FlagValue {
    Bool(bool),
    String(String),
    Float(String),
    Integer(i64),
    StringList(Vec<String>),
    IntegerList(Vec<i64>),
}

/// What a [`FlagValue`] holds, with texts as character sequences.
pub enum ValueView {
    Bool(bool),
    String(Seq<char>),
    Float(Seq<char>),
    Integer(i64),
    StringList(Seq<Seq<char>>),
    IntegerList(Seq<i64>),
}

impl View for FlagValue {
    type V = ValueView;

    open spec fn view(&self) -> ValueView {
        match self {
            FlagValue::Bool(b) => ValueView::Bool(*b),
            FlagValue::String(s) => ValueView::String(s@),
            FlagValue::Float(s) => ValueView::Float(s@),
            FlagValue::Integer(i) => ValueView::Integer(*i),
            FlagValue::StringList(l) => ValueView::StringList(texts(l@)),
            FlagValue::IntegerList(l) => ValueView::IntegerList(l@),
        }
    }
}

/// A copy of the strings.
pub fn copy_strings(v: &Vec<String>) -> (r: Vec<String>)
    ensures
        texts(r@) == texts(v@),
{
    let mut out: Vec<String> = Vec::new();
    let mut i: usize = 0;
    while i < v.len()
        invariant
            i <= v@.len(),
            out@.len() == i,
            texts(out@) == texts(v@.subrange(0, i as int)),
        decreases v@.len() - i,
    {
        let ghost before = out@;
        let c = v[i].clone();
        out.push(c);
        proof {
            assert forall|k: int| 0 <= k < i + 1 implies #[trigger] texts(out@)[k] == texts(
                v@.subrange(0, i + 1),
            )[k] by {
                if k < i {
                    assert(out@[k] == before[k]);
                    assert(texts(before)[k] == texts(v@.subrange(0, i as int))[k]);
                }
            }
            assert(texts(out@) =~= texts(v@.subrange(0, i + 1)));
        }
        i = i + 1;
    }
    assert(v@.subrange(0, v@.len() as int) =~= v@);
    out
}

/// Appends copies of `src` to `dst`.
pub fn append_strings(dst: &mut Vec<String>, src: &Vec<String>)
    ensures
        texts(final(dst)@) == texts(old(dst)@) + texts(src@),
{
    let ghost start = texts(dst@);
    let mut i: usize = 0;
    while i < src.len()
        invariant
            i <= src@.len(),
            texts(dst@) == start + texts(src@.subrange(0, i as int)),
        decreases src@.len() - i,
    {
        let ghost before = dst@;
        dst.push(src[i].clone());
        proof {
            assert(dst@.drop_last() == before);
            assert(texts(dst@) =~= texts(before).push(src@[i as int]@));
            assert(texts(src@.subrange(0, i + 1)) =~= texts(src@.subrange(0, i as int)).push(
                src@[i as int]@,
            ));
            assert(texts(dst@) =~= start + texts(src@.subrange(0, i + 1)));
        }
        i = i + 1;
    }
    assert(src@.subrange(0, src@.len() as int) =~= src@);
}

/// Appends `src` to `dst`.
pub fn append_integers(dst: &mut Vec<i64>, src: &Vec<i64>)
    ensures
        final(dst)@ == old(dst)@ + src@,
{
    let ghost start = dst@;
    let mut i: usize = 0;
    while i < src.len()
        invariant
            i <= src@.len(),
            dst@ == start + src@.subrange(0, i as int),
        decreases src@.len() - i,
    {
        dst.push(src[i]);
        proof {
            assert(dst@ =~= start + src@.subrange(0, i + 1));
        }
        i = i + 1;
    }
    assert(src@.subrange(0, src@.len() as int) =~= src@);
}

/// A copy of the integers.
pub fn copy_integers(v: &Vec<i64>) -> (r: Vec<i64>)
    ensures
        r@ == v@,
{
    let mut out: Vec<i64> = Vec::new();
    let mut i: usize = 0;
    while i < v.len()
        invariant
            i <= v@.len(),
            out@ == v@.subrange(0, i as int),
        decreases v@.len() - i,
    {
        out.push(v[i]);
        proof {
            assert(out@ =~= v@.subrange(0, i + 1));
        }
        i = i + 1;
    }
    assert(v@.subrange(0, v@.len() as int) =~= v@);
    out
}

impl Clone for FlagValue {
    fn clone(&self) -> (r: Self)
        ensures
            r@ == self@,
    {
        match self {
            FlagValue::Bool(b) => FlagValue::Bool(*b),
            FlagValue::String(s) => FlagValue::String(s.clone()),
            FlagValue::Float(s) => FlagValue::Float(s.clone()),
            FlagValue::Integer(i) => FlagValue::Integer(*i),
            FlagValue::StringList(l) => FlagValue::StringList(copy_strings(l)),
            FlagValue::IntegerList(l) => FlagValue::IntegerList(copy_integers(l)),
        }
    }
}

impl FlagValue {
    pub fn as_string(&self) -> (r: Option<&str>)
        ensures
            match self@ {
                ValueView::String(s) => r matches Some(t) && t@ == s,
                _ => r is None,
            },
    {
        match self {
            FlagValue::String(s) => Some(s.as_str()),
            _ => None,
        }
    }

    pub fn as_bool(&self) -> (r: Option<bool>)
        ensures
            match self@ {
                ValueView::Bool(b) => r == Some(b),
                _ => r is None,
            },
    {
        match self {
            FlagValue::Bool(b) => Some(*b),
            _ => None,
        }
    }

    pub fn as_integer(&self) -> (r: Option<i64>)
        ensures
            match self@ {
                ValueView::Integer(i) => r == Some(i),
                _ => r is None,
            },
    {
        match self {
            FlagValue::Integer(i) => Some(*i),
            _ => None,
        }
    }

    /// The decimal text of a float value; it reads as an `f64`.
    pub fn as_float(&self) -> (r: Option<&str>)
        ensures
            match self@ {
                ValueView::Float(s) => r matches Some(t) && t@ == s,
                _ => r is None,
            },
    {
        match self {
            FlagValue::Float(s) => Some(s.as_str()),
            _ => None,
        }
    }

    pub fn as_string_list(&self) -> (r: Option<&Vec<String>>)
        ensures
            match self@ {
                ValueView::StringList(l) => r matches Some(t) && texts(t@) == l,
                _ => r is None,
            },
    {
        match self {
            FlagValue::StringList(l) => Some(l),
            _ => None,
        }
    }

    pub fn as_integer_list(&self) -> (r: Option<&Vec<i64>>)
        ensures
            match self@ {
                ValueView::IntegerList(l) => r matches Some(t) && t@ == l,
                _ => r is None,
            },
    {
        match self {
            FlagValue::IntegerList(l) => Some(l),
            _ => None,
        }
    }
}

/// A named, typed option of a command.
#[derive(Debug, Clone)]
pub struct Flag {
    pub name: String,
    pub short: Option<char>,
    pub flag_type: FlagType,
    pub description: String,
    pub required: bool,
    pub default_value: Option<FlagValue>,
    pub possible_values: Option<Vec<String>>,
}

/// The outcome of reading a value, with texts as character sequences.
pub open spec fn value_outcome(r: Result<FlagValue, AppError>) -> Result<ValueView, ErrorView> {
    match r {
        Ok(v) => Ok(v@),
        Err(e) => Err(e@),
    }
}

pub open spec fn invalid(flag: Seq<char>, value: Seq<char>, expected: Seq<char>) -> ErrorView {
    ErrorView::InvalidFlagValue { flag, value, expected }
}

impl Flag {
    /// Whether the allow-list, if any, holds `v`.
    pub open spec fn admits(&self, v: Seq<char>) -> bool {
        match self.possible_values {
            Some(p) => texts(p@).contains(v),
            None => true,
        }
    }

    /// What a refusal by the allow-list says was expected.
    pub open spec fn one_of(&self) -> Seq<char> {
        match self.possible_values {
            Some(p) => "one of \""@ + joined(texts(p@), ", "@) + "\""@,
            None => Seq::empty(),
        }
    }

    /// The outcome of the allow-list check on `v`.
    pub open spec fn check_spec(&self, v: Seq<char>) -> Result<(), ErrorView> {
        if self.admits(v) {
            Ok(())
        } else {
            Err(invalid(self.name@, v, self.one_of()))
        }
    }

    /// What one value token `v` gives for this flag.
    pub open spec fn value_spec(&self, v: Seq<char>) -> Result<ValueView, ErrorView> {
        match self.flag_type {
            FlagType::Bool => Ok(
                ValueView::Bool(
                    if v == "true"@ {
                        true
                    } else if v == "false"@ {
                        false
                    } else {
                        v.len() > 0
                    },
                ),
            ),
            FlagType::String => match self.check_spec(v) {
                Ok(_) => Ok(ValueView::String(v)),
                Err(e) => Err(e),
            },
            FlagType::Integer => match integer_of(v) {
                Some(i) => Ok(ValueView::Integer(i)),
                None => Err(invalid(self.name@, v, "integer"@)),
            },
            FlagType::Float => if is_decimal(v) {
                Ok(ValueView::Float(v))
            } else {
                Err(invalid(self.name@, v, "float"@))
            },
            FlagType::StringList => match self.check_spec(v) {
                Ok(_) => Ok(ValueView::StringList(seq![v])),
                Err(e) => Err(e),
            },
            FlagType::IntegerList => match integer_list_of(v) {
                Some(l) => Ok(ValueView::IntegerList(l)),
                None => Err(invalid(self.name@, v, "comma-separated integers"@)),
            },
        }
    }

    pub fn new(name: &str, flag_type: FlagType) -> (r: Self)
        ensures
            r.name@ == name@,
            r.short is None,
            r.flag_type == flag_type,
            r.description@ == Seq::<char>::empty(),
            !r.required,
            r.default_value is None,
            r.possible_values is None,
    {
        Flag {
            name: text_of(name),
            short: None,
            flag_type,
            description: String::new(),
            required: false,
            default_value: None,
            possible_values: None,
        }
    }

    pub fn short(self, short: char) -> (r: Self)
        ensures
            r == (Flag { short: Some(short), ..self }),
    {
        Flag { short: Some(short), ..self }
    }

    pub fn description(self, description: &str) -> (r: Self)
        ensures
            r.description@ == description@,
            r.name == self.name,
            r.short == self.short,
            r.flag_type == self.flag_type,
            r.required == self.required,
            r.default_value == self.default_value,
            r.possible_values == self.possible_values,
    {
        Flag { description: text_of(description), ..self }
    }

    pub fn required(self, required: bool) -> (r: Self)
        ensures
            r == (Flag { required, ..self }),
    {
        Flag { required, ..self }
    }

    pub fn default_value(self, default_value: FlagValue) -> (r: Self)
        ensures
            r == (Flag { default_value: Some(default_value), ..self }),
    {
        Flag { default_value: Some(default_value), ..self }
    }

    pub fn possible_values(self, possible_values: Vec<String>) -> (r: Self)
        ensures
            r == (Flag { possible_values: Some(possible_values), ..self }),
    {
        Flag { possible_values: Some(possible_values), ..self }
    }

    /// Refuses `value` when an allow-list is set and does not hold it.
    fn validate_possible_values(&self, value: &str) -> (r: Result<(), AppError>)
        ensures
            match r {
                Ok(_) => self.check_spec(value@) == Ok::<(), ErrorView>(()),
                Err(e) => self.check_spec(value@) == Err::<(), ErrorView>(e@),
            },
    {
        match &self.possible_values {
            None => Ok(()),
            Some(possible) => {
                let mut i: usize = 0;
                while i < possible.len()
                    invariant
                        self.possible_values == Some(*possible),
                        i <= possible@.len(),
                        forall|k: int| 0 <= k < i ==> possible@[k]@ != value@,
                    decreases possible@.len() - i,
                {
                    if same_text(possible[i].as_str(), value) {
                        assert(texts(possible@)[i as int] == value@);
                        assert(self.admits(value@));
                        return Ok(());
                    }
                    i = i + 1;
                }
                assert(!texts(possible@).contains(value@));
                let listed = join(possible, ", ");
                let expected = text_of("one of \"").concat(listed.as_str()).concat("\"");
                Err(
                    AppError::InvalidFlagValue {
                        flag: self.name.clone(),
                        value: text_of(value),
                        expected,
                    },
                )
            },
        }
    }

    /// Reads one value token as this flag's type.
    pub fn parse_value(&self, value: &str) -> (r: Result<FlagValue, AppError>)
        ensures
            value_outcome(r) == self.value_spec(value@),
    {
        match self.flag_type {
            FlagType::Bool => {
                let b = if same_text(value, "true") {
                    true
                } else if same_text(value, "false") {
                    false
                } else {
                    value.unicode_len() > 0
                };
                Ok(FlagValue::Bool(b))
            },
            FlagType::String => {
                match self.validate_possible_values(value) {
                    Ok(_) => Ok(FlagValue::String(text_of(value))),
                    Err(e) => Err(e),
                }
            },
            FlagType::Integer => match parse_integer(value) {
                Some(i) => Ok(FlagValue::Integer(i)),
                None => Err(
                    AppError::InvalidFlagValue {
                        flag: self.name.clone(),
                        value: text_of(value),
                        expected: text_of("integer"),
                    },
                ),
            },
            FlagType::Float => if is_decimal_text(value) {
                Ok(FlagValue::Float(text_of(value)))
            } else {
                Err(
                    AppError::InvalidFlagValue {
                        flag: self.name.clone(),
                        value: text_of(value),
                        expected: text_of("float"),
                    },
                )
            },
            FlagType::StringList => {
                match self.validate_possible_values(value) {
                    Ok(_) => {
                        let mut l: Vec<String> = Vec::new();
                        l.push(text_of(value));
                        assert(texts(l@) =~= seq![value@]);
                        Ok(FlagValue::StringList(l))
                    },
                    Err(e) => Err(e),
                }
            },
            FlagType::IntegerList => match parse_integer_list(value) {
                Some(l) => Ok(FlagValue::IntegerList(l)),
                None => Err(
                    AppError::InvalidFlagValue {
                        flag: self.name.clone(),
                        value: text_of(value),
                        expected: text_of("comma-separated integers"),
                    },
                ),
            },
        }
    }

    /// The first of `vs` that the allow-list refuses.
    pub open spec fn first_refused(&self, vs: Seq<Seq<char>>) -> Option<Seq<char>>
        decreases vs.len(),
    {
        if vs.len() == 0 {
            None
        } else {
            match self.first_refused(vs.drop_last()) {
                Some(x) => Some(x),
                None => if self.admits(vs.last()) {
                    None
                } else {
                    Some(vs.last())
                },
            }
        }
    }

    /// What several value tokens `vs` give for this flag.
    pub open spec fn values_spec(&self, vs: Seq<Seq<char>>) -> Result<ValueView, ErrorView> {
        match self.flag_type {
            FlagType::StringList => match self.first_refused(vs) {
                Some(x) => Err(invalid(self.name@, x, self.one_of())),
                None => Ok(ValueView::StringList(vs)),
            },
            FlagType::IntegerList => match each_integer(vs) {
                Ok(l) => Ok(ValueView::IntegerList(l)),
                Err(x) => Err(invalid(self.name@, x, "integer"@)),
            },
            _ => if vs.len() > 1 {
                Err(
                    invalid(
                        self.name@,
                        joined(vs, ", "@),
                        "single "@ + type_description(self.flag_type),
                    ),
                )
            } else {
                self.value_spec(vs[0])
            },
        }
    }

    /// Reads several value tokens for this flag: each one into a list type,
    /// exactly one into any other type.
    pub fn parse_values(&self, values: &[String]) -> (r: Result<FlagValue, AppError>)
        requires
            values@.len() > 0 || self.flag_type == FlagType::StringList || self.flag_type
                == FlagType::IntegerList,
        ensures
            value_outcome(r) == self.values_spec(texts(values@)),
    {
        let ghost vs = texts(values@);
        match self.flag_type {
            FlagType::StringList => {
                let mut out: Vec<String> = Vec::new();
                let mut i: usize = 0;
                while i < values.len()
                    invariant
                        vs == texts(values@),
                        self.flag_type == FlagType::StringList,
                        i <= values@.len(),
                        out@.len() == i,
                        texts(out@) == vs.subrange(0, i as int),
                        self.first_refused(vs.subrange(0, i as int)) is None,
                    decreases values@.len() - i,
                {
                    let ghost sub = vs.subrange(0, i + 1);
                    assert(sub.drop_last() =~= vs.subrange(0, i as int));
                    assert(sub.last() == values@[i as int]@);
                    match self.validate_possible_values(values[i].as_str()) {
                        Ok(_) => {},
                        Err(e) => {
                            proof {
                                lemma_first_refused_prefix(*self, vs, i + 1);
                            }
                            return Err(e);
                        },
                    }
                    let ghost before = out@;
                    out.push(values[i].clone());
                    proof {
                        assert forall|k: int| 0 <= k < i + 1 implies #[trigger] texts(out@)[k]
                            == sub[k] by {
                            if k < i {
                                assert(out@[k] == before[k]);
                                assert(texts(before)[k] == vs.subrange(0, i as int)[k]);
                            }
                        }
                        assert(texts(out@) =~= sub);
                    }
                    i = i + 1;
                }
                assert(vs.subrange(0, values@.len() as int) =~= vs);
                Ok(FlagValue::StringList(out))
            },
            FlagType::IntegerList => {
                let mut out: Vec<i64> = Vec::new();
                let mut i: usize = 0;
                while i < values.len()
                    invariant
                        vs == texts(values@),
                        self.flag_type == FlagType::IntegerList,
                        i <= values@.len(),
                        each_integer(vs.subrange(0, i as int)) == Ok::<Seq<i64>, Seq<char>>(out@),
                    decreases values@.len() - i,
                {
                    let ghost sub = vs.subrange(0, i + 1);
                    assert(sub.drop_last() =~= vs.subrange(0, i as int));
                    assert(sub.last() == values@[i as int]@);
                    match parse_integer(values[i].as_str()) {
                        Some(x) => {
                            out.push(x);
                        },
                        None => {
                            proof {
                                lemma_each_integer_prefix(vs, i + 1);
                            }
                            return Err(
                                AppError::InvalidFlagValue {
                                    flag: self.name.clone(),
                                    value: values[i].clone(),
                                    expected: text_of("integer"),
                                },
                            );
                        },
                    }
                    i = i + 1;
                }
                assert(vs.subrange(0, values@.len() as int) =~= vs);
                Ok(FlagValue::IntegerList(out))
            },
            _ => {
                if values.len() > 1 {
                    let listed = join(values, ", ");
                    let expected = text_of("single ").concat(self.flag_type.description());
                    return Err(
                        AppError::InvalidFlagValue {
                            flag: self.name.clone(),
                            value: listed,
                            expected,
                        },
                    );
                }
                self.parse_value(values[0].as_str())
            },
        }
    }
}

/// The integers that the tokens write, or the first token that writes none.
pub open spec fn each_integer(vs: Seq<Seq<char>>) -> Result<Seq<i64>, Seq<char>>
    decreases vs.len(),
{
    if vs.len() == 0 {
        Ok(Seq::empty())
    } else {
        match each_integer(vs.drop_last()) {
            Err(x) => Err(x),
            Ok(l) => match integer_of(vs.last()) {
                Some(n) => Ok(l.push(n)),
                None => Err(vs.last()),
            },
        }
    }
}

proof fn lemma_first_refused_prefix(flag: Flag, vs: Seq<Seq<char>>, k: int)
    requires
        0 < k <= vs.len(),
        flag.first_refused(vs.subrange(0, k)) is Some,
    ensures
        flag.first_refused(vs) == flag.first_refused(vs.subrange(0, k)),
    decreases vs.len(),
{
    if k < vs.len() {
        assert(vs.drop_last().subrange(0, k) =~= vs.subrange(0, k));
        lemma_first_refused_prefix(flag, vs.drop_last(), k);
    } else {
        assert(vs.subrange(0, k) =~= vs);
    }
}

proof fn lemma_each_integer_prefix(vs: Seq<Seq<char>>, k: int)
    requires
        0 < k <= vs.len(),
        each_integer(vs.subrange(0, k)) is Err,
    ensures
        each_integer(vs) == each_integer(vs.subrange(0, k)),
    decreases vs.len(),
{
    if k < vs.len() {
        assert(vs.drop_last().subrange(0, k) =~= vs.subrange(0, k));
        lemma_each_integer_prefix(vs.drop_last(), k);
    } else {
        assert(vs.subrange(0, k) =~= vs);
    }
}

} // verus!
