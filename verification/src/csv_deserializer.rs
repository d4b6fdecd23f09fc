//! Positional decoder for comma-delimited parameter records.
//!
//! A record is one line of text whose fields are separated by commas. It
//! carries no field names: the shape that the caller asks for says, field by
//! field and in order, how each token is to be read.

use crate::text::{
    boolean_literal, integer_literal, lemma_integer_literal_is_plain_text, parse_boolean,
    parse_integer, text_of, unwrap_big_int,
};
use vstd::prelude::*;
use vstd::string::StrSliceExecFns;

verus! {

/// A decoded field.
#[derive(Debug, Clone, PartialEq, Eq)]
pub enum FieldValue {
    /// A signed 64-bit integer.
    Integer(i64),
    /// `true` or `false`.
    Boolean(bool),
    /// Text, kept as it stood in the record.
    Text(String),
    /// An optional field that the record left empty.
    Absent,
}

/// What a [`FieldValue`] is in contracts.
pub ghost enum FieldValueView {
    Integer(int),
    Boolean(bool),
    Text(Seq<char>),
    Absent,
}

impl View for FieldValue {
    type V = FieldValueView;

    open spec fn view(&self) -> FieldValueView {
        match self {
            FieldValue::Integer(n) => FieldValueView::Integer(*n as int),
            FieldValue::Boolean(b) => FieldValueView::Boolean(*b),
            FieldValue::Text(s) => FieldValueView::Text(s@),
            FieldValue::Absent => FieldValueView::Absent,
        }
    }
}

impl DeepView for FieldValue {
    type V = FieldValueView;

    open spec fn deep_view(&self) -> FieldValueView {
        self@
    }
}

/// How one field of a record is to be read.
#[derive(Debug, PartialEq, Eq)]
pub enum FieldKind {
    /// Whatever the token looks like: an integer, else a boolean, else text.
    Any,
    /// A signed 64-bit integer.
    Integer,
    /// A 64-bit integer that is not negative.
    Unsigned,
    /// A boolean.
    Boolean,
    /// Text. The token is never read as a number or a boolean; a
    /// big-integer wrapper around it is taken off.
    Text,
    /// A field that may be left empty, and is otherwise read as the inner kind.
    Optional(Box<FieldKind>),
}

/// One declared field of a parameter shape.
#[derive(Debug, PartialEq, Eq)]
pub struct FieldSpec {
    pub name: String,
    pub kind: FieldKind,
}

/// The fields that a record is decoded against, in declaration order.
#[derive(Debug, PartialEq, Eq)]
pub struct Shape {
    pub fields: Vec<FieldSpec>,
}

impl Shape {
    /// The kinds of the declared fields, in order.
    pub open spec fn kinds(&self) -> Seq<FieldKind> {
        Seq::new(self.fields@.len(), |i: int| self.fields@[i].kind)
    }

    /// The declared fields, in order, each as its name and its kind.
    pub open spec fn declared(&self) -> Seq<(Seq<char>, FieldKind)> {
        Seq::new(self.fields@.len(), |i: int| (self.fields@[i].name@, self.fields@[i].kind))
    }

    /// The shape that declares `fields`, in their order.
    pub fn new(fields: Vec<FieldSpec>) -> (shape: Shape)
        ensures
            shape.fields == fields,
    {
        Shape { fields }
    }
}

impl FieldSpec {
    /// A field called `name` that is read as `kind`.
    pub fn new(name: &str, kind: FieldKind) -> (field: FieldSpec)
        ensures
            field.name@ == name@,
            field.kind == kind,
    {
        FieldSpec { name: name.to_owned(), kind }
    }
}

/// Why a record could not be decoded.
#[derive(Debug, Clone, Copy, PartialEq, Eq)]
pub enum DecodeError {
    /// The record ran out of tokens: no token is left for the field at `index`.
    MissingField { index: usize },
    /// The token at `index` cannot be read as the kind of the field at `index`.
    TypeMismatch { index: usize },
}

/// What a [`DecodeError`] is in contracts.
pub ghost enum DecodeErrorView {
    MissingField { index: int },
    TypeMismatch { index: int },
}

impl View for DecodeError {
    type V = DecodeErrorView;

    open spec fn view(&self) -> DecodeErrorView {
        match self {
            DecodeError::MissingField { index } => DecodeErrorView::MissingField {
                index: *index as int,
            },
            DecodeError::TypeMismatch { index } => DecodeErrorView::TypeMismatch {
                index: *index as int,
            },
        }
    }
}

/// The value of a token that is read without an expected kind: an integer
/// if the whole token is an integer literal, else a boolean if it is exactly
/// `true` or `false`, else the token itself as text.
pub open spec fn classify(token: Seq<char>) -> FieldValueView {
    match integer_literal(token) {
        Some(n) => FieldValueView::Integer(n),
        None => match boolean_literal(token) {
            Some(b) => FieldValueView::Boolean(b),
            None => FieldValueView::Text(token),
        },
    }
}

/// The value of `token` read as `kind`, or `None` where the token cannot be
/// read so.
pub open spec fn decode_token(token: Seq<char>, kind: FieldKind) -> Option<FieldValueView>
    decreases kind,
{
    match kind {
        FieldKind::Any => Some(classify(token)),
        FieldKind::Integer => match classify(token) {
            FieldValueView::Integer(n) => Some(FieldValueView::Integer(n)),
            _ => None,
        },
        FieldKind::Unsigned => match classify(token) {
            FieldValueView::Integer(n) if n >= 0 => Some(FieldValueView::Integer(n)),
            _ => None,
        },
        FieldKind::Boolean => match classify(token) {
            FieldValueView::Boolean(b) => Some(FieldValueView::Boolean(b)),
            _ => None,
        },
        FieldKind::Text => Some(FieldValueView::Text(text_of(token))),
        FieldKind::Optional(inner) => if token.len() == 0 {
            Some(FieldValueView::Absent)
        } else {
            decode_token(token, *inner)
        },
    }
}

/// The tokens of a record: the pieces of `raw` between its commas. Empty
/// pieces are kept, so a text without a comma is one token and `n` commas
/// always give `n + 1` tokens.
pub open spec fn split_fields(raw: Seq<char>) -> Seq<Seq<char>>
    decreases raw.len(),
{
    if raw.len() == 0 {
        seq![Seq::<char>::empty()]
    } else {
        let before = split_fields(raw.drop_last());
        if raw.last() == ',' {
            before.push(Seq::<char>::empty())
        } else {
            before.drop_last().push(before.last().push(raw.last()))
        }
    }
}

/// The outcome of reading the fields from position `start` on, each from
/// the token at its own position: the values in order, or the failure of the
/// first field that cannot be read. Tokens beyond the last field are not
/// looked at.
pub open spec fn decode_fields(tokens: Seq<Seq<char>>, kinds: Seq<FieldKind>, start: int) -> Result<
    Seq<FieldValueView>,
    DecodeErrorView,
>
    decreases kinds.len() - start,
{
    if start < 0 || start >= kinds.len() {
        Ok(Seq::empty())
    } else if start >= tokens.len() {
        Err(DecodeErrorView::MissingField { index: start })
    } else {
        match decode_token(tokens[start], kinds[start]) {
            None => Err(DecodeErrorView::TypeMismatch { index: start }),
            Some(value) => match decode_fields(tokens, kinds, start + 1) {
                Ok(rest) => Ok(seq![value] + rest),
                Err(e) => Err(e),
            },
        }
    }
}

/// The outcome of decoding the record `raw` against fields of the given kinds.
pub open spec fn decode_record(raw: Seq<char>, kinds: Seq<FieldKind>) -> Result<
    Seq<FieldValueView>,
    DecodeErrorView,
> {
    decode_fields(split_fields(raw), kinds, 0)
}

/// What an executable decoding result is in contracts.
pub open spec fn outcome_view(outcome: Result<Vec<FieldValue>, DecodeError>) -> Result<
    Seq<FieldValueView>,
    DecodeErrorView,
> {
    match outcome {
        Ok(values) => Ok(values.deep_view()),
        Err(e) => Err(e@),
    }
}

/// What a cursor hands out at `position`: the token there read as `seed`,
/// or the report that no token is left.
pub open spec fn next_element(tokens: Seq<Seq<char>>, position: int, seed: FieldKind) -> Result<
    Option<FieldValueView>,
    DecodeErrorView,
> {
    if 0 <= position < tokens.len() {
        match decode_token(tokens[position], seed) {
            Some(value) => Ok(Some(value)),
            None => Err(DecodeErrorView::TypeMismatch { index: position }),
        }
    } else {
        Ok(None)
    }
}

/// What an executable cursor result is in contracts.
pub open spec fn element_view(element: Result<Option<FieldValue>, DecodeError>) -> Result<
    Option<FieldValueView>,
    DecodeErrorView,
> {
    match element {
        Ok(field) => Ok(field_view(field)),
        Err(e) => Err(e@),
    }
}

/// What an executable single-field result is in contracts.
pub open spec fn field_view(field: Option<FieldValue>) -> Option<FieldValueView> {
    match field {
        Some(value) => Some(value@),
        None => None,
    }
}

impl FieldKind {
    /// The kind of a field that may be left empty and is otherwise read as `inner`.
    pub fn optional(inner: FieldKind) -> (kind: FieldKind)
        ensures
            kind == FieldKind::Optional(Box::new(inner)),
    {
        FieldKind::Optional(Box::new(inner))
    }
}

/// Reads one token without an expected kind.
pub fn classify_token(token: &str) -> (value: FieldValue)
    ensures
        value@ == classify(token@),
{
    match parse_integer(token) {
        Some(n) => FieldValue::Integer(n),
        None => match parse_boolean(token) {
            Some(b) => FieldValue::Boolean(b),
            None => FieldValue::Text(token.to_owned()),
        },
    }
}

/// Splits a record into its tokens.
pub fn split<'a>(raw: &'a str) -> (parts: Vec<&'a str>)
    ensures
        parts.deep_view() == split_fields(raw@),
{
    let chars = crate::text::chars_of(raw);
    let mut parts: Vec<&'a str> = Vec::new();
    let mut start: usize = 0;
    let mut i: usize = 0;
    assert(raw@.take(0) =~= Seq::<char>::empty());
    assert(raw@.subrange(0, 0) =~= Seq::<char>::empty());
    assert(parts.deep_view().push(raw@.subrange(0, 0)) =~= split_fields(raw@.take(0)));
    while i < chars.len()
        invariant
            start <= i <= chars.len(),
            chars@ == raw@,
            parts.deep_view().push(raw@.subrange(start as int, i as int)) == split_fields(
                raw@.take(i as int),
            ),
        decreases chars.len() - i,
    {
        let ghost done = parts.deep_view();
        let ghost current = raw@.subrange(start as int, i as int);
        assert(raw@.take(i + 1).drop_last() =~= raw@.take(i as int));
        assert(raw@.take(i + 1).last() == chars@[i as int]);
        assert(done.push(current).drop_last() =~= done);
        if chars[i] == ',' {
            parts.push(raw.substring_char(start, i));
            start = i + 1;
            assert(parts.deep_view() =~= done.push(current));
            assert(raw@.subrange(start as int, i + 1) =~= Seq::<char>::empty());
        } else {
            assert(raw@.subrange(start as int, i + 1) =~= current.push(chars@[i as int]));
        }
        i += 1;
    }
    let ghost done = parts.deep_view();
    parts.push(raw.substring_char(start, i));
    assert(raw@.take(i as int) =~= raw@);
    assert(parts.deep_view() =~= done.push(raw@.subrange(start as int, i as int)));
    parts
}

/// Decoder over one token of text.
pub struct GenericDeserializer<'de> {
    input: &'de str,
}

impl<'de> View for GenericDeserializer<'de> {
    type V = Seq<char>;

    closed spec fn view(&self) -> Seq<char> {
        self.input@
    }
}

impl<'de> GenericDeserializer<'de> {
    /// A decoder positioned on `input`.
    pub fn new(input: &'de str) -> (de: Self)
        ensures
            de@ == input@,
    {
        Self { input }
    }

    /// Reads the token without an expected kind.
    pub fn deserialize_any(&self) -> (value: FieldValue)
        ensures
            value@ == classify(self@),
    {
        classify_token(self.input)
    }

    /// Reads the token as text: the token itself, or the inside of a
    /// big-integer wrapper `BigInt(<inner>)`, whatever `<inner>` is.
    pub fn deserialize_string(&self) -> (text: String)
        ensures
            text@ == text_of(self@),
    {
        unwrap_big_int(self.input).to_owned()
    }

    /// Reads the token as an optional field: absent if the token is empty,
    /// otherwise the whole token read as `inner`.
    pub fn deserialize_option(&self, inner: &FieldKind) -> (field: Option<FieldValue>)
        ensures
            field_view(field) == decode_token(self@, FieldKind::Optional(Box::new(*inner))),
        decreases *inner, 1int,
    {
        if self.input.is_empty() {
            Some(FieldValue::Absent)
        } else {
            self.deserialize(inner)
        }
    }

    /// Reads the token as `kind`; `None` where the token cannot be read so.
    pub fn deserialize(&self, kind: &FieldKind) -> (field: Option<FieldValue>)
        ensures
            field_view(field) == decode_token(self@, *kind),
        decreases *kind, 0int,
    {
        match kind {
            FieldKind::Any => Some(self.deserialize_any()),
            FieldKind::Integer => match self.deserialize_any() {
                FieldValue::Integer(n) => Some(FieldValue::Integer(n)),
                _ => None,
            },
            FieldKind::Unsigned => match self.deserialize_any() {
                FieldValue::Integer(n) => if n >= 0 {
                    Some(FieldValue::Integer(n))
                } else {
                    None
                },
                _ => None,
            },
            FieldKind::Boolean => match self.deserialize_any() {
                FieldValue::Boolean(b) => Some(FieldValue::Boolean(b)),
                _ => None,
            },
            FieldKind::Text => Some(FieldValue::Text(self.deserialize_string())),
            FieldKind::Optional(inner) => self.deserialize_option(inner),
        }
    }

    /// Reads the token as a record: splits it at its commas and reads the
    /// fields of `shape` in order, each from the token at its own position.
    pub fn deserialize_struct(&self, shape: &Shape) -> (outcome: Result<
        Vec<FieldValue>,
        DecodeError,
    >)
        ensures
            outcome_view(outcome) == decode_record(self@, shape.kinds()),
    {
        let mut seq = StructSeqAccess::new(split(self.input));
        let ghost tokens = seq.tokens();
        let ghost kinds = shape.kinds();
        let mut values: Vec<FieldValue> = Vec::new();
        let mut i: usize = 0;
        assert(values.deep_view() =~= Seq::<FieldValueView>::empty());
        while i < shape.fields.len()
            invariant
                i <= shape.fields.len(),
                kinds == shape.kinds(),
                tokens == split_fields(self@),
                seq.tokens() == tokens,
                seq.position() == i,
                values.deep_view().len() == i,
                match decode_fields(tokens, kinds, i as int) {
                    Ok(rest) => decode_fields(tokens, kinds, 0) == Ok::<
                        Seq<FieldValueView>,
                        DecodeErrorView,
                    >(values.deep_view() + rest),
                    Err(e) => decode_fields(tokens, kinds, 0) == Err::<
                        Seq<FieldValueView>,
                        DecodeErrorView,
                    >(e),
                },
            decreases shape.fields.len() - i,
        {
            let ghost before = values.deep_view();
            assert(kinds[i as int] == shape.fields@[i as int].kind);
            match seq.next_element_seed(&shape.fields[i].kind) {
                Ok(Some(value)) => {
                    values.push(value);
                    assert(values.deep_view() =~= before.push(value@));
                    proof {
                        match decode_fields(tokens, kinds, i + 1) {
                            Ok(rest) => {
                                assert(before + (seq![value@] + rest) =~= before.push(value@)
                                    + rest);
                            },
                            Err(e) => {},
                        }
                    }
                },
                Ok(None) => {
                    return Err(DecodeError::MissingField { index: i });
                },
                Err(e) => {
                    return Err(e);
                },
            }
            i += 1;
        }
        assert(values.deep_view() + Seq::<FieldValueView>::empty() =~= values.deep_view());
        Ok(values)
    }
}

/// Cursor over the tokens of one record.
pub struct StructSeqAccess<'de> {
    parts: Vec<&'de str>,
    next: usize,
}

impl<'de> StructSeqAccess<'de> {
    /// All tokens of the record, consumed or not.
    pub closed spec fn tokens(&self) -> Seq<Seq<char>> {
        self.parts.deep_view()
    }

    /// How many tokens have been consumed.
    pub closed spec fn position(&self) -> int {
        self.next as int
    }

    /// The cursor keeps its position within the tokens.
    #[verifier::type_invariant]
    spec fn within_tokens(&self) -> bool {
        self.next <= self.parts.len()
    }

    /// A cursor in front of the first of `parts`.
    pub fn new(parts: Vec<&'de str>) -> (seq: Self)
        ensures
            seq.tokens() == parts.deep_view(),
            seq.position() == 0,
    {
        Self { parts, next: 0 }
    }

    /// Consumes the next token and reads it as `seed`. Once the tokens are
    /// used up it consumes nothing and reports that no field is left.
    pub fn next_element_seed(&mut self, seed: &FieldKind) -> (element: Result<
        Option<FieldValue>,
        DecodeError,
    >)
        ensures
            final(self).tokens() == old(self).tokens(),
            0 <= old(self).position() <= old(self).tokens().len(),
            final(self).position() == if old(self).position() < old(self).tokens().len() {
                old(self).position() + 1
            } else {
                old(self).position()
            },
            element_view(element) == next_element(
                old(self).tokens(),
                old(self).position(),
                *seed,
            ),
    {
        proof {
            use_type_invariant(&*self);
        }
        if self.next < self.parts.len() {
            let index = self.next;
            let de = GenericDeserializer::new(self.parts[index]);
            self.next = index + 1;
            match de.deserialize(seed) {
                Some(value) => Ok(Some(value)),
                None => Err(DecodeError::TypeMismatch { index }),
            }
        } else {
            Ok(None)
        }
    }
}

/// Decodes the record `s` against `shape`.
///
/// The record is split at its commas and the fields of `shape` are read in
/// declaration order, each from the token at its own position. Decoding
/// stops at the first field that fails: with `MissingField` where the record
/// has no token left for it, with `TypeMismatch` where its token cannot be
/// read as its kind. Tokens beyond the last field are ignored.
pub fn from_str(s: &str, shape: &Shape) -> (outcome: Result<Vec<FieldValue>, DecodeError>)
    ensures
        outcome_view(outcome) == decode_record(s@, shape.kinds()),
{
    let deserializer = GenericDeserializer::new(s);
    deserializer.deserialize_struct(shape)
}

/// The text of a record with the given tokens: the tokens in order, with a
/// comma between each two.
pub open spec fn join_fields(tokens: Seq<Seq<char>>) -> Seq<char>
    decreases tokens.len(),
{
    if tokens.len() == 0 {
        Seq::empty()
    } else if tokens.len() == 1 {
        tokens[0]
    } else {
        join_fields(tokens.drop_last()) + seq![','] + tokens.last()
    }
}

/// How many commas `raw` holds.
pub open spec fn comma_count(raw: Seq<char>) -> nat
    decreases raw.len(),
{
    if raw.len() == 0 {
        0
    } else if raw.last() == ',' {
        comma_count(raw.drop_last()) + 1
    } else {
        comma_count(raw.drop_last())
    }
}

/// Whether no token holds a comma.
pub open spec fn comma_free(tokens: Seq<Seq<char>>) -> bool {
    forall|i: int, j: int|
        0 <= i < tokens.len() && 0 <= j < tokens[i].len() ==> #[trigger] tokens[i][j] != ','
}

/// A record splits into one token more than it holds commas, so into at
/// least one, and no token holds a comma.
pub proof fn lemma_split_tokens(raw: Seq<char>)
    ensures
        split_fields(raw).len() == comma_count(raw) + 1,
        comma_free(split_fields(raw)),
    decreases raw.len(),
{
    if raw.len() > 0 {
        lemma_split_tokens(raw.drop_last());
        let before = split_fields(raw.drop_last());
        let tokens = split_fields(raw);
        assert forall|i: int, j: int|
            0 <= i < tokens.len() && 0 <= j < tokens[i].len() implies #[trigger] tokens[i][j]
            != ',' by {
            if i < before.len() - 1 {
                assert(tokens[i][j] == before[i][j]);
            } else if i == before.len() - 1 && raw.last() != ',' {
                if j < before[i].len() {
                    assert(tokens[i][j] == before[i][j]);
                }
            } else if i == before.len() - 1 {
                assert(tokens[i][j] == before[i][j]);
            }
        }
    }
}

/// Appending a character that is no comma to a record appends it to the last token.
proof fn lemma_join_grows_last(tokens: Seq<Seq<char>>, c: char)
    requires
        tokens.len() > 0,
    ensures
        join_fields(tokens.drop_last().push(tokens.last().push(c))) == join_fields(tokens).push(c),
{
    let grown = tokens.drop_last().push(tokens.last().push(c));
    if tokens.len() > 1 {
        assert(grown.drop_last() =~= tokens.drop_last());
        assert(join_fields(grown) =~= join_fields(tokens).push(c));
    }
}

/// Splitting loses nothing: the tokens of a record, joined with commas, are
/// the record again.
pub proof fn lemma_split_joins_back(raw: Seq<char>)
    ensures
        join_fields(split_fields(raw)) == raw,
    decreases raw.len(),
{
    if raw.len() == 0 {
        assert(join_fields(split_fields(raw)) =~= raw);
    } else {
        lemma_split_joins_back(raw.drop_last());
        lemma_split_tokens(raw.drop_last());
        let before = split_fields(raw.drop_last());
        if raw.last() == ',' {
            let tokens = before.push(Seq::<char>::empty());
            assert(tokens.drop_last() =~= before);
            assert(join_fields(tokens) =~= raw.drop_last().push(','));
        } else {
            lemma_join_grows_last(before, raw.last());
        }
        assert(raw.drop_last().push(raw.last()) =~= raw);
    }
}

/// Splitting invents nothing: tokens without commas, joined with commas and
/// split again, come back as they were.
pub proof fn lemma_join_splits_back(tokens: Seq<Seq<char>>)
    requires
        tokens.len() > 0,
        comma_free(tokens),
    ensures
        split_fields(join_fields(tokens)) == tokens,
    decreases join_fields(tokens).len(),
{
    let raw = join_fields(tokens);
    let last = tokens.last();
    if last.len() > 0 {
        let shorter = tokens.drop_last().push(last.drop_last());
        assert(shorter.drop_last() =~= tokens.drop_last());
        assert(shorter.drop_last().push(shorter.last().push(last.last())) =~= tokens) by {
            assert(last.drop_last().push(last.last()) =~= last);
        }
        lemma_join_grows_last(shorter, last.last());
        assert(raw == join_fields(shorter).push(last.last()));
        assert(raw.drop_last() =~= join_fields(shorter));
        assert(raw.last() == last[last.len() - 1]);
        assert forall|i: int, j: int|
            0 <= i < shorter.len() && 0 <= j < shorter[i].len() implies #[trigger] shorter[i][j]
            != ',' by {
            assert(shorter[i][j] == tokens[i][j]);
        }
        lemma_join_splits_back(shorter);
    } else if tokens.len() == 1 {
        assert(raw =~= Seq::<char>::empty());
        assert(split_fields(raw) =~= tokens);
    } else {
        let front = tokens.drop_last();
        assert(raw =~= join_fields(front).push(','));
        assert(raw.drop_last() =~= join_fields(front));
        assert forall|i: int, j: int|
            0 <= i < front.len() && 0 <= j < front[i].len() implies #[trigger] front[i][j]
            != ',' by {
            assert(front[i][j] == tokens[i][j]);
        }
        lemma_join_splits_back(front);
        assert(last =~= Seq::<char>::empty());
        assert(front.push(Seq::<char>::empty()) =~= tokens);
    }
}

/// The tokens of two records with a comma between them are the tokens of
/// the first followed by the tokens of the second.
pub proof fn lemma_split_of_joined_records(first: Seq<char>, second: Seq<char>)
    ensures
        split_fields(first + seq![','] + second) == split_fields(first) + split_fields(second),
    decreases second.len(),
{
    let raw = first + seq![','] + second;
    if second.len() == 0 {
        assert(raw.drop_last() =~= first);
        assert(split_fields(raw) =~= split_fields(first) + split_fields(second));
    } else {
        lemma_split_of_joined_records(first, second.drop_last());
        lemma_split_tokens(second.drop_last());
        assert(raw.drop_last() =~= first + seq![','] + second.drop_last());
        assert(raw.last() == second.last());
        assert(split_fields(raw) =~= split_fields(first) + split_fields(second));
    }
}

/// The position that a failure names.
pub open spec fn failed_index(e: DecodeErrorView) -> int {
    match e {
        DecodeErrorView::MissingField { index } => index,
        DecodeErrorView::TypeMismatch { index } => index,
    }
}

/// Whether the field at `i` can be read: a token stands at its position and
/// can be read as its kind.
pub open spec fn field_reads(tokens: Seq<Seq<char>>, kinds: Seq<FieldKind>, i: int) -> bool {
    0 <= i < tokens.len() && decode_token(tokens[i], kinds[i]) is Some
}

/// What [`decode_fields`] gives from `start` on, field by field.
proof fn lemma_decode_fields_from(tokens: Seq<Seq<char>>, kinds: Seq<FieldKind>, start: int)
    requires
        0 <= start <= kinds.len(),
    ensures
        match decode_fields(tokens, kinds, start) {
            Ok(values) => {
                &&& values.len() == kinds.len() - start
                &&& forall|i: int|
                    start <= i < kinds.len() ==> #[trigger] field_reads(tokens, kinds, i)
                        && decode_token(tokens[i], kinds[i]) == Some(values[i - start])
            },
            Err(e) => {
                &&& start <= failed_index(e) < kinds.len()
                &&& !field_reads(tokens, kinds, failed_index(e))
                &&& forall|j: int|
                    start <= j < failed_index(e) ==> #[trigger] field_reads(tokens, kinds, j)
                &&& e == if failed_index(e) >= tokens.len() {
                    DecodeErrorView::MissingField { index: failed_index(e) }
                } else {
                    DecodeErrorView::TypeMismatch { index: failed_index(e) }
                }
            },
        },
    decreases kinds.len() - start,
{
    if start < kinds.len() && start < tokens.len() {
        match decode_token(tokens[start], kinds[start]) {
            Some(value) => {
                lemma_decode_fields_from(tokens, kinds, start + 1);
                assert(field_reads(tokens, kinds, start));
                match decode_fields(tokens, kinds, start + 1) {
                    Ok(rest) => {
                        let values = seq![value] + rest;
                        assert forall|i: int| start <= i < kinds.len() implies #[trigger] field_reads(
                            tokens,
                            kinds,
                            i,
                        ) && decode_token(tokens[i], kinds[i]) == Some(values[i - start]) by {
                            if i > start {
                                assert(field_reads(tokens, kinds, i));
                                assert(values[i - start] == rest[i - (start + 1)]);
                            }
                        }
                    },
                    Err(e) => {
                        assert forall|j: int| start <= j < failed_index(e) implies #[trigger] field_reads(
                            tokens,
                            kinds,
                            j,
                        ) by {
                            if j > start {
                                assert(field_reads(tokens, kinds, j));
                            }
                        }
                    },
                }
            },
            None => {},
        }
    }
}

/// A record decodes exactly if every field can be read, each from the token
/// at its own position, and then gives the fields' values in order.
/// Otherwise it fails at the first field that cannot be read: with a missing
/// field where the tokens have run out, which names the number of tokens,
/// and with a type mismatch where that field's token does not fit its kind.
pub proof fn lemma_record_outcome(raw: Seq<char>, kinds: Seq<FieldKind>)
    ensures
        match decode_record(raw, kinds) {
            Ok(values) => {
                &&& values.len() == kinds.len()
                &&& forall|i: int|
                    0 <= i < kinds.len() ==> #[trigger] field_reads(split_fields(raw), kinds, i)
                        && decode_token(split_fields(raw)[i], kinds[i]) == Some(values[i])
            },
            Err(e) => {
                &&& 0 <= failed_index(e) < kinds.len()
                &&& !field_reads(split_fields(raw), kinds, failed_index(e))
                &&& forall|j: int|
                    0 <= j < failed_index(e) ==> #[trigger] field_reads(
                        split_fields(raw),
                        kinds,
                        j,
                    )
                &&& e == if failed_index(e) == split_fields(raw).len() {
                    DecodeErrorView::MissingField { index: failed_index(e) }
                } else {
                    DecodeErrorView::TypeMismatch { index: failed_index(e) }
                }
                &&& failed_index(e) <= split_fields(raw).len()
            },
        },
{
    let tokens = split_fields(raw);
    lemma_decode_fields_from(tokens, kinds, 0);
    match decode_fields(tokens, kinds, 0) {
        Ok(values) => {
            assert forall|i: int| 0 <= i < kinds.len() implies #[trigger] field_reads(
                tokens,
                kinds,
                i,
            ) && decode_token(tokens[i], kinds[i]) == Some(values[i]) by {
                assert(field_reads(tokens, kinds, i));
                assert(values[i - 0] == values[i]);
            }
        },
        Err(e) => {
            let i = failed_index(e);
            if i > tokens.len() {
                assert(field_reads(tokens, kinds, tokens.len() as int));
                assert(false);
            }
            assert(i <= tokens.len());
        },
    }
}

/// A record with fewer tokens than the shape has fields never decodes. If
/// every token it has can be read as the kind of the field at its position,
/// it fails with a missing field at the position after its last token.
pub proof fn lemma_short_record_fails(raw: Seq<char>, kinds: Seq<FieldKind>)
    requires
        split_fields(raw).len() < kinds.len(),
    ensures
        decode_record(raw, kinds) is Err,
        (forall|i: int|
            0 <= i < split_fields(raw).len() ==> #[trigger] field_reads(
                split_fields(raw),
                kinds,
                i,
            )) ==> decode_record(raw, kinds) == Err::<Seq<FieldValueView>, DecodeErrorView>(
            DecodeErrorView::MissingField { index: split_fields(raw).len() as int },
        ),
{
    let tokens = split_fields(raw);
    lemma_record_outcome(raw, kinds);
    match decode_record(raw, kinds) {
        Ok(values) => {
            assert(field_reads(tokens, kinds, tokens.len() as int));
        },
        Err(e) => {
            if forall|i: int| 0 <= i < tokens.len() ==> #[trigger] field_reads(tokens, kinds, i) {
                if failed_index(e) < tokens.len() {
                    assert(field_reads(tokens, kinds, failed_index(e)));
                }
            }
        },
    }
}

/// Reading the fields looks at no token beyond the last field.
proof fn lemma_decode_fields_ignores_tail(
    tokens: Seq<Seq<char>>,
    extra: Seq<Seq<char>>,
    kinds: Seq<FieldKind>,
    start: int,
)
    requires
        0 <= start,
        tokens.len() >= kinds.len(),
    ensures
        decode_fields(tokens + extra, kinds, start) == decode_fields(tokens, kinds, start),
    decreases kinds.len() - start,
{
    if start < kinds.len() {
        assert((tokens + extra)[start] == tokens[start]);
        lemma_decode_fields_ignores_tail(tokens, extra, kinds, start + 1);
    }
}

/// Tokens beyond the declared fields are ignored: a record that has a token
/// for every field decodes to the same outcome whatever is appended to it
/// behind a further comma.
pub proof fn lemma_trailing_tokens_ignored(raw: Seq<char>, extra: Seq<char>, kinds: Seq<FieldKind>)
    requires
        split_fields(raw).len() >= kinds.len(),
    ensures
        decode_record(raw + seq![','] + extra, kinds) == decode_record(raw, kinds),
{
    lemma_split_of_joined_records(raw, extra);
    lemma_decode_fields_ignores_tail(split_fields(raw), split_fields(extra), kinds, 0);
}

/// Only an empty token is read as absent, and only by an optional field.
pub proof fn lemma_absent_only_from_empty(token: Seq<char>, kind: FieldKind)
    requires
        decode_token(token, kind) == Some(FieldValueView::Absent),
    ensures
        token.len() == 0,
        kind is Optional,
    decreases kind,
{
    match kind {
        FieldKind::Optional(inner) => {
            if token.len() != 0 {
                lemma_absent_only_from_empty(token, *inner);
            }
        },
        _ => {},
    }
}

/// An optional field is absent exactly if its token is empty; any other
/// token is read as the inner kind, whole.
pub proof fn lemma_optional_field(token: Seq<char>, inner: FieldKind)
    ensures
        decode_token(token, FieldKind::Optional(Box::new(inner))) == Some(FieldValueView::Absent)
            <==> token.len() == 0,
        token.len() > 0 ==> decode_token(token, FieldKind::Optional(Box::new(inner)))
            == decode_token(token, inner),
{
    if token.len() > 0 && decode_token(token, inner) == Some(FieldValueView::Absent) {
        lemma_absent_only_from_empty(token, inner);
    }
}

/// The kind that is asked for decides how a token is read, not what the
/// token looks like: a text field always gives text, and a token that an
/// unconstrained field reads as an integer is kept verbatim by a text field.
pub proof fn lemma_text_field_gives_text(token: Seq<char>)
    ensures
        decode_token(token, FieldKind::Text) == Some(FieldValueView::Text(text_of(token))),
        decode_token(token, FieldKind::Any) == Some(classify(token)),
        classify(token) is Integer ==> decode_token(token, FieldKind::Text) == Some(
            FieldValueView::Text(token),
        ),
{
    if classify(token) is Integer {
        lemma_integer_literal_is_plain_text(token);
    }
}

} // verus!
