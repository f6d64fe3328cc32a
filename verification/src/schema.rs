//! Schema system: the closed catalog of fixed-width column types, named
//! typed fields, and the per-tuple byte size computed against a
//! null-presence bitmap. Null columns contribute no payload bytes at all.

use vstd::prelude::*;
use vstd::string::StrSliceExecFns;

verus! {

/// The whitespace characters the textual formats recognize.
pub open spec fn is_space(c: char) -> bool {
    c == ' ' || c == '\t' || c == '\n' || c == '\r'
}

fn space_char(c: char) -> (b: bool)
    ensures
        b == is_space(c),
{
    c == ' ' || c == '\t' || c == '\n' || c == '\r'
}

/// The whitespace-separated tokens of a string, in order.
pub open spec fn tokens(s: Seq<char>) -> Seq<Seq<char>>
    decreases s.len(),
{
    if s.len() == 0 {
        Seq::<Seq<char>>::empty()
    } else {
        let rest = tokens(s.skip(1));
        if is_space(s[0]) {
            rest
        } else if s.len() >= 2 && !is_space(s[1]) {
            seq![seq![s[0]] + rest[0]] + rest.skip(1)
        } else {
            seq![seq![s[0]]] + rest
        }
    }
}

/// A maximal non-space run `s[0..b]` is the first token of `s`.
proof fn lemma_tokens_first(s: Seq<char>, b: int)
    requires
        0 < b <= s.len(),
        forall|k: int| 0 <= k < b ==> !is_space(s[k]),
        b == s.len() || is_space(s[b]),
    ensures
        tokens(s) == seq![s.take(b)] + tokens(s.skip(b)),
    decreases b,
{
    if b == 1 {
        assert(s.take(1) =~= seq![s[0]]);
        assert(tokens(s) =~~= seq![s.take(1)] + tokens(s.skip(1)));
    } else {
        let t = s.skip(1);
        assert(!is_space(s[0]));
        assert(!is_space(s[1]));
        assert forall|k: int| 0 <= k < b - 1 implies !is_space(t[k]) by {
            assert(t[k] == s[k + 1]);
        }
        assert(b - 1 == t.len() || is_space(t[b - 1]));
        lemma_tokens_first(t, b - 1);
        let rest = tokens(t);
        assert(rest[0] == t.take(b - 1));
        assert(rest.skip(1) =~~= tokens(t.skip(b - 1)));
        assert(t.skip(b - 1) =~= s.skip(b));
        assert(seq![s[0]] + t.take(b - 1) =~= s.take(b));
        assert(tokens(s) =~~= seq![s.take(b)] + tokens(s.skip(b)));
    }
}

/// Count of leading whitespace characters.
pub open spec fn leading_spaces(s: Seq<char>) -> nat
    decreases s.len(),
{
    if s.len() == 0 || !is_space(s[0]) {
        0
    } else {
        1 + leading_spaces(s.skip(1))
    }
}

/// Count of trailing whitespace characters.
pub open spec fn trailing_spaces(s: Seq<char>) -> nat
    decreases s.len(),
{
    if s.len() == 0 || !is_space(s[s.len() - 1]) {
        0
    } else {
        1 + trailing_spaces(s.take(s.len() - 1))
    }
}

/// The string with leading and trailing whitespace removed.
pub open spec fn spec_trim(s: Seq<char>) -> Seq<char> {
    if leading_spaces(s) == s.len() {
        Seq::<char>::empty()
    } else {
        s.subrange(leading_spaces(s) as int, s.len() - trailing_spaces(s))
    }
}

proof fn lemma_leading_spaces_is(s: Seq<char>, m: int)
    requires
        0 <= m <= s.len(),
        forall|k: int| 0 <= k < m ==> is_space(s[k]),
        m == s.len() || !is_space(s[m]),
    ensures
        leading_spaces(s) == m,
    decreases m,
{
    if m > 0 {
        let t = s.skip(1);
        assert forall|k: int| 0 <= k < m - 1 implies is_space(t[k]) by {
            assert(t[k] == s[k + 1]);
        }
        assert(m - 1 == t.len() || !is_space(t[m - 1]));
        lemma_leading_spaces_is(t, m - 1);
    }
}

proof fn lemma_trailing_spaces_is(s: Seq<char>, m: int)
    requires
        0 <= m <= s.len(),
        forall|k: int| s.len() - m <= k < s.len() ==> is_space(s[k]),
        m == s.len() || !is_space(s[s.len() - 1 - m]),
    ensures
        trailing_spaces(s) == m,
    decreases m,
{
    if m > 0 {
        let t = s.take(s.len() - 1);
        assert(is_space(s[s.len() - 1]));
        assert forall|k: int| t.len() - (m - 1) <= k < t.len() implies is_space(t[k]) by {
            assert(t[k] == s[k]);
        }
        assert(m - 1 == t.len() || !is_space(t[t.len() - 1 - (m - 1)]));
        lemma_trailing_spaces_is(t, m - 1);
    }
}

/// Trim a string; the result is a slice of the input.
fn trim_str<'a>(s: &'a str) -> (t: &'a str)
    ensures
        t@ == spec_trim(s@),
{
    let n = s.unicode_len();
    let mut a: usize = 0;
    while a < n && space_char(s.get_char(a))
        invariant
            a <= n,
            n == s@.len(),
            forall|k: int| 0 <= k < a ==> is_space(s@[k]),
        decreases n - a,
    {
        a += 1;
    }
    proof {
        lemma_leading_spaces_is(s@, a as int);
    }
    if a == n {
        let t = s.substring_char(0, 0);
        proof {
            assert(t@ =~= spec_trim(s@));
        }
        return t;
    }
    let mut b: usize = n;
    while b > a + 1 && space_char(s.get_char(b - 1))
        invariant
            a < b <= n,
            n == s@.len(),
            forall|k: int| b <= k < n ==> is_space(s@[k]),
        decreases b,
    {
        b -= 1;
    }
    proof {
        if b == a + 1 && is_space(s@[a as int]) {
            assert(false);
        }
        assert(!is_space(s@[b - 1]));
        lemma_trailing_spaces_is(s@, n - b as int);
    }
    let t = s.substring_char(a, b);
    proof {
        assert(t@ =~= spec_trim(s@));
    }
    t
}

/// Split at every separator, dropping one trailing empty segment: the
/// comma acts as a terminator, so a trailing comma adds no segment and an
/// empty string has none.
pub open spec fn split_term(s: Seq<char>, sep: char) -> Seq<Seq<char>>
    decreases s.len(),
{
    if s.len() == 0 {
        Seq::<Seq<char>>::empty()
    } else if s[0] == sep {
        seq![Seq::<char>::empty()] + split_term(s.skip(1), sep)
    } else {
        let rest = split_term(s.skip(1), sep);
        if rest.len() == 0 {
            seq![seq![s[0]]]
        } else {
            seq![seq![s[0]] + rest[0]] + rest.skip(1)
        }
    }
}

proof fn lemma_char_skip_keeps_free(s: Seq<char>, sep: char)
    requires
        forall|k: int| 0 <= k < s.len() ==> s[k] != sep,
        s.len() > 0,
    ensures
        forall|k: int| 0 <= k < s.skip(1).len() ==> s.skip(1)[k] != sep,
        s[0] != sep,
{
    assert forall|k: int| 0 <= k < s.skip(1).len() implies s.skip(1)[k] != sep by {
        assert(s.skip(1)[k] == s[k + 1]);
    }
}

proof fn lemma_split_term_no_sep(s: Seq<char>, sep: char)
    requires
        forall|k: int| 0 <= k < s.len() ==> s[k] != sep,
    ensures
        split_term(s, sep) == if s.len() == 0 {
            Seq::<Seq<char>>::empty()
        } else {
            seq![s]
        },
    decreases s.len(),
{
    if s.len() > 0 {
        lemma_char_skip_keeps_free(s, sep);
        lemma_split_term_no_sep(s.skip(1), sep);
        if s.len() == 1 {
            assert(s.skip(1).len() == 0);
            assert(seq![s[0]] =~= s);
        } else {
            let rest = split_term(s.skip(1), sep);
            assert(rest.len() == 1);
            assert(seq![s[0]] + s.skip(1) =~= s);
            assert(rest.skip(1) =~~= Seq::<Seq<char>>::empty());
            assert(split_term(s, sep) =~~= seq![s]);
        }
    }
}

proof fn lemma_split_term_prefix(a: Seq<char>, b: Seq<char>, sep: char)
    requires
        forall|k: int| 0 <= k < a.len() ==> a[k] != sep,
    ensures
        split_term(a + seq![sep] + b, sep) == seq![a] + split_term(b, sep),
    decreases a.len(),
{
    let s = a + seq![sep] + b;
    if a.len() == 0 {
        assert(s[0] == sep);
        assert(s.skip(1) =~= b);
        assert(split_term(s, sep) =~~= seq![a] + split_term(b, sep));
    } else {
        lemma_char_skip_keeps_free(a, sep);
        assert(s[0] == a[0]);
        assert(s.skip(1) =~= a.skip(1) + seq![sep] + b);
        lemma_split_term_prefix(a.skip(1), b, sep);
        let rest = split_term(s.skip(1), sep);
        assert(rest == seq![a.skip(1)] + split_term(b, sep));
        assert(rest.len() >= 1);
        assert(rest[0] == a.skip(1));
        assert(rest.skip(1) =~~= split_term(b, sep));
        assert(seq![a[0]] + a.skip(1) =~= a);
        assert(split_term(s, sep) =~~= seq![a] + split_term(b, sep));
    }
}

/// Compare two strings character by character.
fn str_eq(a: &str, b: &str) -> (r: bool)
    ensures
        r == (a@ == b@),
{
    let na = a.unicode_len();
    let nb = b.unicode_len();
    if na != nb {
        proof {
            if a@ == b@ {
                assert(a@.len() == b@.len());
            }
        }
        return false;
    }
    let mut i: usize = 0;
    while i < na
        invariant
            i <= na,
            na == a@.len(),
            na == b@.len(),
            forall|k: int| 0 <= k < i ==> a@[k] == b@[k],
        decreases na - i,
    {
        if a.get_char(i) != b.get_char(i) {
            proof {
                if a@ == b@ {
                    assert(a@[i as int] == b@[i as int]);
                }
            }
            return false;
        }
        i += 1;
    }
    proof {
        assert(a@ =~= b@);
    }
    true
}

/// The closed set of column types; every type has a fixed on-disk width.
#[derive(Debug, Clone, Copy, PartialEq, Eq, Structural)]
pub enum Type {
    Int,
    Bigint,
    Float,
    Boolean,
    String,
    Timestamp,
}

/// Fixed byte width of one value of a column type.
pub open spec fn type_size(t: Type) -> nat {
    match t {
        Type::Int => 4,
        Type::Bigint => 8,
        Type::Float => 8,
        Type::Boolean => 1,
        Type::String => 255,
        Type::Timestamp => 16,
    }
}

impl Type {
    /// Total fixed width of one value of this type.
    pub fn get_byte_size(&self) -> (n: usize)
        ensures
            n == type_size(*self),
    {
        match self {
            Type::Int => 4,
            Type::Bigint => 8,
            Type::Float => 8,
            Type::Boolean => 1,
            Type::String => 255,
            Type::Timestamp => 16,
        }
    }
}

/// A named, typed column of a schema.
#[derive(Debug, PartialEq)]
pub struct Field {
    pub name: String,
    pub _type: Type,
}

impl Field {
    pub fn build(name: String, _type: Type) -> (f: Field)
        ensures
            f.name == name,
            f._type == _type,
    {
        Field { name, _type }
    }

    pub fn get_type(&self) -> (t: &Type)
        ensures
            *t == self._type,
    {
        &self._type
    }
}

impl Clone for Field {
    fn clone(&self) -> (r: Field)
        ensures
            r == *self,
    {
        Field { name: self.name.clone(), _type: self._type }
    }
}

/// An ordered sequence of fields; the order defines the on-disk column
/// order and the order of the entries of a tuple's null bitmap.
#[derive(Debug, PartialEq)]
pub struct Schema {
    pub fields: Vec<Field>,
}

/// Byte size of a tuple: fields are paired position-wise with null-bitmap
/// entries, and only present fields (entry 0) contribute their width.
/// Pairing stops at the shorter of the two sequences.
pub open spec fn size_of_fields(fields: Seq<Field>, nulls: Seq<u8>) -> nat
    decreases fields.len(),
{
    if fields.len() == 0 || nulls.len() == 0 {
        0
    } else {
        (if nulls[0] == 0 {
            type_size(fields[0]._type)
        } else {
            0
        }) + size_of_fields(fields.skip(1), nulls.skip(1))
    }
}

/// Byte size of a tuple in which every field is present.
pub open spec fn full_size(fields: Seq<Field>) -> nat
    decreases fields.len(),
{
    if fields.len() == 0 {
        0
    } else {
        type_size(fields[0]._type) + full_size(fields.skip(1))
    }
}

/// The size computed by [`Schema::tuple_size`]: against the given bitmap,
/// or the worst case when none is given.
pub open spec fn spec_tuple_size(fields: Seq<Field>, nulls: Option<Seq<u8>>) -> nat {
    match nulls {
        Option::Some(ns) => size_of_fields(fields, ns),
        Option::None => full_size(fields),
    }
}

impl Schema {
    /// Sum of the byte widths of the present fields. Without a bitmap every
    /// field counts (the worst-case tuple size); with one, fields and
    /// entries pair by position and entry 0 means present.
    pub fn tuple_size(&self, nulls: Option<&[u8]>) -> (size: usize)
        requires
            (nulls matches Some(ns) ==> size_of_fields(self.fields@, ns@) <= usize::MAX),
            (nulls is None ==> full_size(self.fields@) <= usize::MAX),
        ensures
            (nulls matches Some(ns) ==> size == size_of_fields(self.fields@, ns@)),
            (nulls is None ==> size == full_size(self.fields@)),
    {
        match nulls {
            Some(ns) => self.sum_present(ns),
            None => self.sum_all(),
        }
    }

    fn sum_present(&self, ns: &[u8]) -> (size: usize)
        requires
            size_of_fields(self.fields@, ns@) <= usize::MAX,
        ensures
            size == size_of_fields(self.fields@, ns@),
    {
        let m = if self.fields.len() <= ns.len() {
            self.fields.len()
        } else {
            ns.len()
        };
        let mut total: usize = 0;
        let mut i: usize = 0;
        proof {
            assert(self.fields@.skip(0) =~= self.fields@);
            assert(ns@.skip(0) =~= ns@);
        }
        while i < m
            invariant
                i <= m,
                m <= self.fields@.len(),
                m <= ns@.len(),
                m == if self.fields@.len() <= ns@.len() {
                    self.fields@.len() as int
                } else {
                    ns@.len() as int
                },
                total + size_of_fields(self.fields@.skip(i as int), ns@.skip(i as int))
                    == size_of_fields(self.fields@, ns@),
                size_of_fields(self.fields@, ns@) <= usize::MAX,
            decreases m - i,
        {
            proof {
                assert(self.fields@.skip(i as int).len() > 0);
                assert(ns@.skip(i as int).len() > 0);
                assert(self.fields@.skip(i as int)[0] == self.fields@[i as int]);
                assert(ns@.skip(i as int)[0] == ns@[i as int]);
                assert(self.fields@.skip(i as int).skip(1) =~= self.fields@.skip(i as int + 1));
                assert(ns@.skip(i as int).skip(1) =~= ns@.skip(i as int + 1));
            }
            if ns[i] == 0 {
                let f = &self.fields[i];
                total = total + f.get_type().get_byte_size();
            }
            i += 1;
        }
        proof {
            assert(self.fields@.skip(m as int).len() == 0 || ns@.skip(m as int).len() == 0);
        }
        total
    }

    fn sum_all(&self) -> (size: usize)
        requires
            full_size(self.fields@) <= usize::MAX,
        ensures
            size == full_size(self.fields@),
    {
        let mut total: usize = 0;
        let mut i: usize = 0;
        proof {
            assert(self.fields@.skip(0) =~= self.fields@);
        }
        while i < self.fields.len()
            invariant
                i <= self.fields@.len(),
                total + full_size(self.fields@.skip(i as int)) == full_size(self.fields@),
                full_size(self.fields@) <= usize::MAX,
            decreases self.fields@.len() - i,
        {
            proof {
                assert(self.fields@.skip(i as int)[0] == self.fields@[i as int]);
                assert(self.fields@.skip(i as int).skip(1) =~= self.fields@.skip(i as int + 1));
            }
            let f = &self.fields[i];
            total = total + f.get_type().get_byte_size();
            i += 1;
        }
        total
    }
}

/// A parse error for one field definition.
#[derive(Debug, PartialEq)]
pub enum FieldError {
    /// The fragment is not exactly a name and a type keyword.
    InvalidField { definition: String },
    /// The type keyword is not in the catalog.
    UnknownType { token: String },
}

/// A parse error for a whole schema definition: every field error found,
/// in order, together with the original input.
#[derive(Debug, PartialEq)]
pub enum SchemaError {
    InvalidSchema { errors: Vec<FieldError>, definition: String },
}

/// The type named by a canonical keyword, if any.
pub open spec fn parse_type(s: Seq<char>) -> Option<Type> {
    if s == "INT"@ {
        Option::Some(Type::Int)
    } else if s == "BIGINT"@ {
        Option::Some(Type::Bigint)
    } else if s == "FLOAT"@ {
        Option::Some(Type::Float)
    } else if s == "BOOLEAN"@ {
        Option::Some(Type::Boolean)
    } else if s == "STRING"@ {
        Option::Some(Type::String)
    } else if s == "TIMESTAMP"@ {
        Option::Some(Type::Timestamp)
    } else {
        Option::None
    }
}

impl Type {
    /// Map a canonical type keyword to its type; unrecognized keywords are
    /// reported with the offending token.
    pub fn from_str(name: &str) -> (r: Result<Type, FieldError>)
        ensures
            (parse_type(name@) matches Some(t) ==> r == Result::<Type, FieldError>::Ok(t)),
            (parse_type(name@) is None ==> ({
                &&& r matches Err(e)
                &&& e matches FieldError::UnknownType { token }
                &&& token@ == name@
            })),
    {
        if str_eq(name, "INT") {
            Ok(Type::Int)
        } else if str_eq(name, "BIGINT") {
            Ok(Type::Bigint)
        } else if str_eq(name, "FLOAT") {
            Ok(Type::Float)
        } else if str_eq(name, "BOOLEAN") {
            Ok(Type::Boolean)
        } else if str_eq(name, "STRING") {
            Ok(Type::String)
        } else if str_eq(name, "TIMESTAMP") {
            Ok(Type::Timestamp)
        } else {
            Err(FieldError::UnknownType { token: name.to_owned() })
        }
    }
}

/// The field a fragment defines: its name token and its type, provided
/// the fragment holds exactly two tokens and the second is a known
/// type keyword.
pub open spec fn parse_field(s: Seq<char>) -> Option<(Seq<char>, Type)> {
    if tokens(s).len() == 2 {
        match parse_type(tokens(s)[1]) {
            Option::Some(t) => Option::Some((tokens(s)[0], t)),
            Option::None => Option::None,
        }
    } else {
        Option::None
    }
}

/// `f` is the field that fragment `s` defines.
pub open spec fn field_matches(f: Field, s: Seq<char>) -> bool {
    parse_field(s) matches Some(p) && f.name@ == p.0 && f._type == p.1
}

/// `e` is the error that fragment `s` provokes.
pub open spec fn field_error_matches(e: FieldError, s: Seq<char>) -> bool {
    match e {
        FieldError::InvalidField { definition } => tokens(s).len() != 2 && definition@ == s,
        FieldError::UnknownType { token } => tokens(s).len() == 2 && parse_type(tokens(s)[1])
            is None && token@ == tokens(s)[1],
    }
}

impl Field {
    /// Parse `"<name> <TYPE>"`: exactly two whitespace-separated tokens,
    /// the second a catalog keyword. Any other token count is an invalid
    /// field; an unknown keyword is reported as such.
    pub fn from_str(field_str: &str) -> (r: Result<Field, FieldError>)
        ensures
            (parse_field(field_str@) matches Some(p) ==> r matches Ok(f) && f.name@ == p.0
                && f._type == p.1),
            (parse_field(field_str@) is None ==> r is Err),
            (r matches Err(e) ==> field_error_matches(e, field_str@)),
    {
        let n = field_str.unicode_len();
        let mut ranges: Vec<(usize, usize)> = Vec::new();
        let ghost mut toks: Seq<Seq<char>> = Seq::empty();
        let mut i: usize = 0;
        proof {
            assert(field_str@.skip(0) =~= field_str@);
        }
        while i < n
            invariant
                i <= n,
                n == field_str@.len(),
                tokens(field_str@) == toks + tokens(field_str@.skip(i as int)),
                toks.len() == ranges@.len(),
                forall|k: int|
                    0 <= k < ranges@.len() ==> (#[trigger] ranges@[k]).0 < ranges@[k].1 <= n
                        && toks[k] == field_str@.subrange(
                        ranges@[k].0 as int,
                        ranges@[k].1 as int,
                    ),
            decreases n - i,
        {
            let c = field_str.get_char(i);
            if space_char(c) {
                proof {
                    assert(field_str@.skip(i as int)[0] == field_str@[i as int]);
                    assert(field_str@.skip(i as int).skip(1) =~= field_str@.skip(i as int + 1));
                }
                i += 1;
            } else {
                let start = i;
                let mut j = i + 1;
                while j < n && !space_char(field_str.get_char(j))
                    invariant
                        i < j <= n,
                        n == field_str@.len(),
                        !is_space(field_str@[i as int]),
                        forall|k: int| i <= k < j ==> !is_space(field_str@[k]),
                    decreases n - j,
                {
                    j += 1;
                }
                let ghost seg = field_str@.subrange(i as int, j as int);
                proof {
                    let rem = field_str@.skip(i as int);
                    assert forall|k: int| 0 <= k < j - i implies !is_space(rem[k]) by {
                        assert(rem[k] == field_str@[i + k]);
                    }
                    assert(j - i == rem.len() || is_space(rem[(j - i) as int]));
                    lemma_tokens_first(rem, j - i);
                    assert(rem.take(j - i) =~= seg);
                    assert(rem.skip(j - i) =~= field_str@.skip(j as int));
                    toks = toks.push(seg);
                    assert(toks + tokens(field_str@.skip(j as int)) =~~= (toks.drop_last()
                        + tokens(field_str@.skip(i as int))));
                }
                ranges.push((start, j));
                i = j;
            }
        }
        proof {
            assert(field_str@.skip(n as int) =~= Seq::<char>::empty());
            assert(tokens(field_str@) =~~= toks);
        }
        if ranges.len() != 2 {
            Err(FieldError::InvalidField { definition: field_str.to_owned() })
        } else {
            let r0 = ranges[0];
            let r1 = ranges[1];
            let name_str = field_str.substring_char(r0.0, r0.1);
            let type_str = field_str.substring_char(r1.0, r1.1);
            proof {
                assert(name_str@ == tokens(field_str@)[0]);
                assert(type_str@ == tokens(field_str@)[1]);
            }
            match Type::from_str(type_str) {
                Ok(t) => Ok(Field { name: name_str.to_owned(), _type: t }),
                Err(e) => Err(e),
            }
        }
    }
}

/// The comma-separated fragments of a schema definition, after trimming.
pub open spec fn segments(s: Seq<char>) -> Seq<Seq<char>> {
    split_term(spec_trim(s), ',')
}

/// The fragments that parse, in order.
pub open spec fn good_segments(segs: Seq<Seq<char>>) -> Seq<Seq<char>>
    decreases segs.len(),
{
    if segs.len() == 0 {
        Seq::<Seq<char>>::empty()
    } else if parse_field(segs[0]) is Some {
        seq![segs[0]] + good_segments(segs.skip(1))
    } else {
        good_segments(segs.skip(1))
    }
}

/// The fragments that fail to parse, in order.
pub open spec fn bad_segments(segs: Seq<Seq<char>>) -> Seq<Seq<char>>
    decreases segs.len(),
{
    if segs.len() == 0 {
        Seq::<Seq<char>>::empty()
    } else if parse_field(segs[0]) is None {
        seq![segs[0]] + bad_segments(segs.skip(1))
    } else {
        bad_segments(segs.skip(1))
    }
}

proof fn lemma_good_bad_push(segs: Seq<Seq<char>>, g: Seq<char>)
    ensures
        good_segments(segs.push(g)) == if parse_field(g) is Some {
            good_segments(segs).push(g)
        } else {
            good_segments(segs)
        },
        bad_segments(segs.push(g)) == if parse_field(g) is None {
            bad_segments(segs).push(g)
        } else {
            bad_segments(segs)
        },
    decreases segs.len(),
{
    if segs.len() == 0 {
        let e: Seq<Seq<char>> = Seq::empty();
        assert(segs =~~= e);
        assert(good_segments(e) == e);
        assert(bad_segments(e) == e);
        assert(segs.push(g)[0] == g);
        assert(segs.push(g).skip(1) =~~= e);
        if parse_field(g) is Some {
            assert(good_segments(segs.push(g)) =~~= good_segments(segs).push(g));
            assert(bad_segments(segs.push(g)) =~~= bad_segments(segs));
        } else {
            assert(good_segments(segs.push(g)) =~~= good_segments(segs));
            assert(bad_segments(segs.push(g)) =~~= bad_segments(segs).push(g));
        }
    } else {
        assert(segs.push(g)[0] == segs[0]);
        assert(segs.push(g).skip(1) =~~= segs.skip(1).push(g));
        lemma_good_bad_push(segs.skip(1), g);
        if parse_field(segs[0]) is Some {
            if parse_field(g) is Some {
                assert(good_segments(segs.push(g)) =~~= good_segments(segs).push(g));
            }
        } else {
            if parse_field(g) is None {
                assert(bad_segments(segs.push(g)) =~~= bad_segments(segs).push(g));
            }
        }
    }
}

proof fn lemma_all_good(segs: Seq<Seq<char>>)
    requires
        bad_segments(segs).len() == 0,
    ensures
        good_segments(segs) == segs,
    decreases segs.len(),
{
    if segs.len() > 0 {
        assert(parse_field(segs[0]) is Some);
        lemma_all_good(segs.skip(1));
        assert(seq![segs[0]] + segs.skip(1) =~~= segs);
    }
}

impl Schema {
    /// Parse a comma-terminated list of field definitions. Every fragment
    /// is parsed; if any fails, the whole parse fails with one aggregated
    /// error listing each fragment's error, in order, plus the original
    /// input. A trailing comma and surrounding whitespace are tolerated.
    pub fn from_str(definition: &str) -> (r: Result<Schema, SchemaError>)
        ensures
            (bad_segments(segments(definition@)).len() == 0 ==> ({
                &&& r matches Ok(sc)
                &&& sc.fields@.len() == segments(definition@).len()
                &&& forall|i: int|
                    0 <= i < segments(definition@).len() ==> field_matches(
                        #[trigger] sc.fields@[i],
                        segments(definition@)[i],
                    )
            })),
            (bad_segments(segments(definition@)).len() > 0 ==> ({
                &&& r matches Err(e)
                &&& e matches SchemaError::InvalidSchema { errors, definition: def }
                &&& def@ == definition@
                &&& errors@.len() == bad_segments(segments(definition@)).len()
                &&& forall|j: int|
                    0 <= j < errors@.len() ==> field_error_matches(
                        #[trigger] errors@[j],
                        bad_segments(segments(definition@))[j],
                    )
            })),
    {
        let t = trim_str(definition);
        let ghost tt = t@;
        let n = t.unicode_len();
        let mut fields: Vec<Field> = Vec::new();
        let mut errors: Vec<FieldError> = Vec::new();
        let ghost mut done: Seq<Seq<char>> = Seq::empty();
        let mut start: usize = 0;
        let mut i: usize = 0;
        proof {
            assert(tt.skip(0) =~= tt);
        }
        while i < n
            invariant
                start <= i <= n,
                n == tt.len(),
                tt == t@,
                split_term(tt, ',') == done + split_term(tt.skip(start as int), ','),
                forall|k: int| start <= k < i ==> tt[k] != ',',
                fields@.len() == good_segments(done).len(),
                forall|k: int|
                    0 <= k < fields@.len() ==> field_matches(
                        #[trigger] fields@[k],
                        good_segments(done)[k],
                    ),
                errors@.len() == bad_segments(done).len(),
                forall|k: int|
                    0 <= k < errors@.len() ==> field_error_matches(
                        #[trigger] errors@[k],
                        bad_segments(done)[k],
                    ),
            decreases n - i,
        {
            let c = t.get_char(i);
            if c == ',' {
                let seg = t.substring_char(start, i);
                proof {
                    let a = tt.subrange(start as int, i as int);
                    assert forall|k: int| 0 <= k < a.len() implies a[k] != ',' by {
                        assert(a[k] == tt[start + k]);
                    }
                    assert(tt.skip(start as int) =~= a + seq![','] + tt.skip(i as int + 1));
                    lemma_split_term_prefix(a, tt.skip(i as int + 1), ',');
                    lemma_good_bad_push(done, a);
                    done = done.push(a);
                }
                match Field::from_str(seg) {
                    Ok(f) => {
                        fields.push(f);
                    },
                    Err(e) => {
                        errors.push(e);
                    },
                }
                start = i + 1;
            }
            i += 1;
        }
        if start < n {
            let seg = t.substring_char(start, n);
            proof {
                let a = tt.subrange(start as int, n as int);
                assert forall|k: int| 0 <= k < a.len() implies a[k] != ',' by {
                    assert(a[k] == tt[start + k]);
                }
                assert(tt.skip(start as int) =~= a);
                lemma_split_term_no_sep(a, ',');
                lemma_good_bad_push(done, a);
                done = done.push(a);
                assert(split_term(tt, ',') =~~= done);
            }
            match Field::from_str(seg) {
                Ok(f) => {
                    fields.push(f);
                },
                Err(e) => {
                    errors.push(e);
                },
            }
        } else {
            proof {
                assert(tt.skip(start as int) =~= Seq::<char>::empty());
                assert(split_term(tt, ',') =~~= done);
            }
        }
        proof {
            assert(segments(definition@) == done);
        }
        if errors.len() > 0 {
            Err(SchemaError::InvalidSchema { errors, definition: definition.to_owned() })
        } else {
            proof {
                lemma_all_good(done);
            }
            Ok(Schema { fields })
        }
    }
}

impl Clone for Schema {
    fn clone(&self) -> (r: Schema)
        ensures
            r.fields@ == self.fields@,
    {
        let mut fields: Vec<Field> = Vec::new();
        let mut i: usize = 0;
        while i < self.fields.len()
            invariant
                i <= self.fields@.len(),
                fields@ == self.fields@.take(i as int),
            decreases self.fields@.len() - i,
        {
            fields.push(self.fields[i].clone());
            proof {
                assert(fields@ =~= self.fields@.take(i as int + 1));
            }
            i += 1;
        }
        proof {
            assert(self.fields@.take(self.fields@.len() as int) =~= self.fields@);
        }
        Schema { fields }
    }
}

} // verus!
