//! Semantic versions: reading, printing and bumping them.

use vstd::prelude::*;
use vstd::string::*;

use crate::error::{outcome, Failure, VersionerError};
use crate::text::{
    all_digits, chars_of, decimal, decimal_text, decimal_value, find, first_of, is_digit, joined,
    lemma_decimal, lemma_decimal_value, lemma_first_of, lemma_first_of_unique, lemma_split,
    lemma_split_joined, maybe_text, parse_decimal, same_text, split, split_at_each, text_of, texts,
};

verus! {

// ---------------------------------------------------------------------------
// Models

/// One dot-separated pre-release identifier.
pub enum IdentifierModel {
    Numeric(u64),
    Alpha(Seq<char>),
}

/// A semantic version.
pub struct VersionModel {
    pub major: u64,
    pub minor: u64,
    pub patch: u64,
    pub pre: Seq<IdentifierModel>,
    pub build: Option<Seq<char>>,
}

/// Whether `character` may stand in an identifier: `[0-9A-Za-z-]`.
pub open spec fn is_identifier_char(character: char) -> bool {
    ||| is_digit(character)
    ||| 'a' <= character <= 'z'
    ||| 'A' <= character <= 'Z'
    ||| character == '-'
}

/// Whether `text` is one or more of `[0-9A-Za-z-]`.
pub open spec fn is_identifier_text(text: Seq<char>) -> bool {
    &&& text.len() > 0
    &&& forall|i: int| 0 <= i < text.len() ==> is_identifier_char(#[trigger] text[i])
}

impl IdentifierModel {
    /// How the identifier is written.
    pub open spec fn printed(self) -> Seq<char> {
        match self {
            IdentifierModel::Numeric(number) => decimal(number as nat),
            IdentifierModel::Alpha(text) => text,
        }
    }

    /// An alphanumeric identifier has at least one character that is no digit.
    pub open spec fn valid(self) -> bool {
        match self {
            IdentifierModel::Numeric(_) => true,
            IdentifierModel::Alpha(text) => is_identifier_text(text) && !all_digits(text),
        }
    }
}

/// Identifiers as they are written.
pub open spec fn printed_each(identifiers: Seq<IdentifierModel>) -> Seq<Seq<char>> {
    Seq::new(identifiers.len(), |i: int| identifiers[i].printed())
}

/// Identifiers as they are written, with dots between them.
pub open spec fn printed_all(identifiers: Seq<IdentifierModel>) -> Seq<char> {
    joined(printed_each(identifiers), seq!['.'])
}

/// Whether every identifier is valid.
pub open spec fn all_valid(identifiers: Seq<IdentifierModel>) -> bool {
    forall|i: int| 0 <= i < identifiers.len() ==> (#[trigger] identifiers[i]).valid()
}

/// Whether `text` is what may follow a `+`: dot-separated `[0-9A-Za-z-]` parts.
pub open spec fn is_build(text: Seq<char>) -> bool {
    let parts = split_at_each(text, '.');
    forall|i: int| 0 <= i < parts.len() ==> is_identifier_text(#[trigger] parts[i])
}

impl VersionModel {
    /// The `x.y.z` part as it is written.
    pub open spec fn printed_core(self) -> Seq<char> {
        decimal(self.major as nat) + seq!['.'] + decimal(self.minor as nat) + seq!['.'] + decimal(
            self.patch as nat,
        )
    }

    /// The version without its build metadata, as it is written.
    pub open spec fn printed_head(self) -> Seq<char> {
        if self.pre.len() == 0 {
            self.printed_core()
        } else {
            self.printed_core() + seq!['-'] + printed_all(self.pre)
        }
    }

    /// The version as it is written: `x.y.z[-pre][+build]`.
    pub open spec fn printed(self) -> Seq<char> {
        match self.build {
            Some(build) => self.printed_head() + seq!['+'] + build,
            None => self.printed_head(),
        }
    }

    /// What semver asks of the parts.
    pub open spec fn valid(self) -> bool {
        &&& all_valid(self.pre)
        &&& self.build matches Some(build) ==> is_build(build)
    }

    /// The version `x.y.z`.
    pub open spec fn release(major: u64, minor: u64, patch: u64) -> VersionModel {
        VersionModel { major, minor, patch, pre: Seq::empty(), build: None }
    }

    /// The version with another pre-release.
    pub open spec fn with_pre(self, pre: Seq<IdentifierModel>) -> VersionModel {
        VersionModel { pre, ..self }
    }
}

/// What a text without a leading-zero number reads as, if it is a number that
/// fits.
pub open spec fn component_of(text: Seq<char>) -> Option<u64> {
    if text.len() > 0 && all_digits(text) && (text.len() > 1 ==> text[0] != '0') && decimal_value(
        text,
    ) <= u64::MAX {
        Some(decimal_value(text) as u64)
    } else {
        None
    }
}

/// What a text reads as when it is taken for one pre-release identifier.
pub open spec fn identifier_of(text: Seq<char>) -> Option<IdentifierModel> {
    if !is_identifier_text(text) {
        None
    } else if !all_digits(text) {
        Some(IdentifierModel::Alpha(text))
    } else {
        match component_of(text) {
            Some(number) => Some(IdentifierModel::Numeric(number)),
            None => None,
        }
    }
}

/// What texts read as when each is taken for a pre-release identifier.
pub open spec fn identifiers_of(parts: Seq<Seq<char>>) -> Option<Seq<IdentifierModel>> {
    if forall|i: int| 0 <= i < parts.len() ==> identifier_of(#[trigger] parts[i]) is Some {
        Some(Seq::new(parts.len(), |i: int| identifier_of(parts[i])->0))
    } else {
        None
    }
}

/// What a text reads as when it is taken for dot-separated identifiers.
pub open spec fn pre_id_of(text: Seq<char>) -> Result<Seq<IdentifierModel>, Failure> {
    match identifiers_of(split_at_each(text, '.')) {
        Some(identifiers) => Ok(identifiers),
        None => Err(Failure::InvalidPreId(text)),
    }
}

/// A component reads back as the number that it is written for, and only
/// numbers read as components.
proof fn lemma_component(text: Seq<char>, number: u64)
    ensures
        component_of(text) == Some(number) <==> decimal(number as nat) == text,
{
    lemma_decimal(number as nat);
    if component_of(text) == Some(number) {
        lemma_decimal_value(text);
    }
}

/// An identifier reads back as what it is written for, and nothing else reads
/// as that identifier.
pub proof fn lemma_identifier(text: Seq<char>, identifier: IdentifierModel)
    ensures
        identifier_of(text) == Some(identifier) <==> identifier.valid() && identifier.printed()
            == text,
{
    match identifier {
        IdentifierModel::Numeric(number) => {
            lemma_component(text, number);
            lemma_decimal(number as nat);
            if identifier.printed() == text {
                assert forall|i: int| 0 <= i < text.len() implies is_identifier_char(
                    #[trigger] text[i],
                ) by {
                    assert(is_digit(text[i]));
                }
            }
        },
        IdentifierModel::Alpha(_) => {},
    }
}

/// No identifier is written with a dot or a plus sign in it.
proof fn lemma_identifier_clean(identifier: IdentifierModel)
    requires
        identifier.valid(),
    ensures
        is_identifier_text(identifier.printed()),
        !identifier.printed().contains('.'),
        !identifier.printed().contains('+'),
{
    lemma_identifier(identifier.printed(), identifier);
    let text = identifier.printed();
    assert forall|i: int| 0 <= i < text.len() implies text[i] != '.' && text[i] != '+' by {
        assert(is_identifier_char(text[i]));
    }
}

/// Identifier lists read back as what they are written for, and nothing else
/// reads as them.
proof fn lemma_identifiers(text: Seq<char>, identifiers: Seq<IdentifierModel>)
    ensures
        identifiers_of(split_at_each(text, '.')) == Some(identifiers) <==> identifiers.len() > 0
            && all_valid(identifiers) && printed_all(identifiers) == text,
{
    let parts = split_at_each(text, '.');
    lemma_split(text, '.');
    if identifiers_of(parts) == Some(identifiers) {
        assert forall|i: int| 0 <= i < identifiers.len() implies (
        #[trigger] identifiers[i]).valid() && identifiers[i].printed() == parts[i] by {
            assert(identifier_of(parts[i]) is Some);
            lemma_identifier(parts[i], identifiers[i]);
        }
        assert(printed_each(identifiers) =~= parts);
    }
    if identifiers.len() > 0 && all_valid(identifiers) && printed_all(identifiers) == text {
        let written = printed_each(identifiers);
        assert forall|i: int| 0 <= i < written.len() implies !(
        #[trigger] written[i]).contains('.') by {
            assert(identifiers[i].valid());
            lemma_identifier_clean(identifiers[i]);
        }
        lemma_split_joined(written, '.');
        assert(parts == written);
        assert forall|i: int| 0 <= i < parts.len() implies identifier_of(#[trigger] parts[i])
            == Some(identifiers[i]) by {
            assert(identifiers[i].valid());
            lemma_identifier(parts[i], identifiers[i]);
        }
        assert(identifiers_of(parts)->0 =~= identifiers);
    }
}

/// What a text reads as, if it is a semantic version: build metadata starts at
/// the first `+`, and the pre-release at the first `-` before that.
pub open spec fn version_of(text: Seq<char>) -> Option<VersionModel> {
    let plus = first_of(text, '+');
    let head = text.take(plus);
    let dash = first_of(head, '-');
    let base = split_at_each(head.take(dash), '.');
    let pre = if dash < head.len() {
        identifiers_of(split_at_each(head.skip(dash + 1), '.'))
    } else {
        Some(Seq::empty())
    };
    if base.len() == 3 && component_of(base[0]) is Some && component_of(base[1]) is Some
        && component_of(base[2]) is Some && pre is Some && (plus < text.len() ==> is_build(
        text.skip(plus + 1),
    )) {
        Some(
            VersionModel {
                major: component_of(base[0])->0,
                minor: component_of(base[1])->0,
                patch: component_of(base[2])->0,
                pre: pre->0,
                build: if plus < text.len() {
                    Some(text.skip(plus + 1))
                } else {
                    None
                },
            },
        )
    } else {
        None
    }
}

/// A character that stands in neither of two texts does not stand in them put
/// together.
proof fn lemma_lacks(left: Seq<char>, right: Seq<char>, character: char)
    requires
        !left.contains(character),
        !right.contains(character),
    ensures
        !(left + right).contains(character),
{
    let both = left + right;
    if both.contains(character) {
        let k = choose|k: int| 0 <= k < both.len() && both[k] == character;
        if k < left.len() {
            assert(left[k] == character);
        } else {
            assert(right[k - left.len()] == character);
        }
    }
}

/// A character that stands in no part and is not the separator does not stand
/// in the parts joined.
proof fn lemma_joined_lacks(parts: Seq<Seq<char>>, separator: char, character: char)
    requires
        separator != character,
        forall|i: int| 0 <= i < parts.len() ==> !(#[trigger] parts[i]).contains(character),
    ensures
        !joined(parts, seq![separator]).contains(character),
    decreases parts.len(),
{
    if parts.len() > 1 {
        let fewer = parts.drop_last();
        assert forall|i: int| 0 <= i < fewer.len() implies !(#[trigger] fewer[i]).contains(
            character,
        ) by {
            assert(parts[i] == fewer[i]);
        }
        lemma_joined_lacks(fewer, separator, character);
        assert(!parts[parts.len() - 1].contains(character));
        assert(!seq![separator].contains(character));
        lemma_lacks(joined(fewer, seq![separator]), seq![separator], character);
        lemma_lacks(
            joined(fewer, seq![separator]) + seq![separator],
            parts.last(),
            character,
        );
    }
}

/// The parts of the core of a version as it is written.
proof fn lemma_core(version: VersionModel)
    ensures
        split_at_each(version.printed_core(), '.') == seq![
            decimal(version.major as nat),
            decimal(version.minor as nat),
            decimal(version.patch as nat),
        ],
        !version.printed_core().contains('-'),
        !version.printed_core().contains('+'),
{
    let parts = seq![
        decimal(version.major as nat),
        decimal(version.minor as nat),
        decimal(version.patch as nat),
    ];
    lemma_decimal(version.major as nat);
    lemma_decimal(version.minor as nat);
    lemma_decimal(version.patch as nat);
    assert forall|i: int| 0 <= i < parts.len() implies !(#[trigger] parts[i]).contains('.')
        && !parts[i].contains('-') && !parts[i].contains('+') by {
        assert(all_digits(parts[i]));
        assert forall|k: int| 0 <= k < parts[i].len() implies parts[i][k] != '.' && parts[i][k]
            != '-' && parts[i][k] != '+' by {
            assert(is_digit(parts[i][k]));
        }
    }
    lemma_three_joined(parts);
    lemma_split_joined(parts, '.');
    lemma_joined_lacks(parts, '.', '-');
    lemma_joined_lacks(parts, '.', '+');
}

/// Three parts joined with dots.
proof fn lemma_three_joined(parts: Seq<Seq<char>>)
    requires
        parts.len() == 3,
    ensures
        joined(parts, seq!['.']) == parts[0] + seq!['.'] + parts[1] + seq!['.'] + parts[2],
{
    reveal_with_fuel(joined, 3);
    let two = parts.drop_last();
    let one = two.drop_last();
    assert(one[0] == parts[0]);
    assert(two.last() == parts[1]);
}

/// The position of a character that follows a text without it.
proof fn lemma_first_after(left: Seq<char>, right: Seq<char>, character: char)
    requires
        !left.contains(character),
    ensures
        first_of(left, character) == left.len(),
        first_of(left + seq![character] + right, character) == left.len(),
        (left + seq![character] + right).take(left.len() as int) == left,
        (left + seq![character] + right).skip(left.len() as int + 1) == right,
{
    let all = left + seq![character] + right;
    assert forall|i: int| 0 <= i < left.len() implies #[trigger] left[i] != character by {}
    assert forall|i: int| 0 <= i < left.len() implies #[trigger] all[i] != character by {
        assert(left[i] != character);
    }
    lemma_first_of_unique(left, character, left.len() as int);
    lemma_first_of_unique(all, character, left.len() as int);
    assert(all.take(left.len() as int) =~= left);
    assert(all.skip(left.len() as int + 1) =~= right);
}

/// A text reads as a version exactly when it is that version, written.
pub proof fn lemma_version(text: Seq<char>, version: VersionModel)
    ensures
        version_of(text) == Some(version) <==> version.valid() && version.printed() == text,
{
    if version_of(text) == Some(version) {
        lemma_version_reads(text, version);
    }
    if version.valid() && version.printed() == text {
        lemma_version_written(version);
    }
}

/// What reads as a version is that version, written.
proof fn lemma_version_reads(text: Seq<char>, version: VersionModel)
    requires
        version_of(text) == Some(version),
    ensures
        version.valid(),
        version.printed() == text,
{
    let plus = first_of(text, '+');
    lemma_first_of(text, '+');
    let head = text.take(plus);
    let dash = first_of(head, '-');
    lemma_first_of(head, '-');
    let base = head.take(dash);
    let parts = split_at_each(base, '.');
    lemma_split(base, '.');
    lemma_three_joined(parts);
    lemma_component(parts[0], version.major);
    lemma_component(parts[1], version.minor);
    lemma_component(parts[2], version.patch);
    assert(version.printed_core() == base);
    if dash < head.len() {
        lemma_identifiers(head.skip(dash + 1), version.pre);
        assert(head =~= base + seq!['-'] + head.skip(dash + 1));
    } else {
        assert(head =~= base);
    }
    assert(version.printed_head() == head);
    if plus < text.len() {
        assert(text =~= head + seq!['+'] + text.skip(plus + 1));
    } else {
        assert(text =~= head);
    }
}

/// A valid version, written, reads as itself.
proof fn lemma_version_written(version: VersionModel)
    requires
        version.valid(),
    ensures
        version_of(version.printed()) == Some(version),
{
    let base = version.printed_core();
    let head = version.printed_head();
    let text = version.printed();
    lemma_core(version);
    let written = printed_each(version.pre);
    assert forall|i: int| 0 <= i < written.len() implies !(#[trigger] written[i]).contains(
        '+',
    ) by {
        assert(version.pre[i].valid());
        lemma_identifier_clean(version.pre[i]);
    }
    lemma_joined_lacks(written, '.', '+');
    if version.pre.len() == 0 {
        lemma_first_after(base, Seq::empty(), '-');
        assert(head.take(base.len() as int) =~= base);
        assert(version.pre =~= Seq::empty());
    } else {
        assert(!seq!['-'].contains('+'));
        lemma_lacks(base, seq!['-'], '+');
        lemma_lacks(base + seq!['-'], printed_all(version.pre), '+');
        lemma_first_after(base, printed_all(version.pre), '-');
        lemma_identifiers(printed_all(version.pre), version.pre);
    }
    assert(!head.contains('+'));
    match version.build {
        Some(build) => lemma_first_after(head, build, '+'),
        None => {
            lemma_first_after(head, Seq::empty(), '+');
            assert(text.take(head.len() as int) =~= head);
        },
    }
    lemma_component(decimal(version.major as nat), version.major);
    lemma_component(decimal(version.minor as nat), version.minor);
    lemma_component(decimal(version.patch as nat), version.patch);
    assert(version_of(text)->0.pre =~= version.pre);
}

// ---------------------------------------------------------------------------
// Types

#[derive(Debug, Clone, PartialEq, Eq)]
pub enum Identifier {
    Numeric(u64),
    Alpha(String),
}

impl View for Identifier {
    type V = IdentifierModel;

    open spec fn view(&self) -> IdentifierModel {
        match self {
            Identifier::Numeric(number) => IdentifierModel::Numeric(*number),
            Identifier::Alpha(text) => IdentifierModel::Alpha(text@),
        }
    }
}

/// The models of a list of identifiers.
pub open spec fn models(identifiers: Seq<Identifier>) -> Seq<IdentifierModel> {
    Seq::new(identifiers.len(), |i: int| identifiers[i]@)
}

/// Semver version. `build` is kept for display but ignored when comparing,
/// and every bump drops it.
#[derive(Debug, Clone)]
pub struct Version {
    pub major: u64,
    pub minor: u64,
    pub patch: u64,
    pub pre: Vec<Identifier>,
    pub build: Option<String>,
}

impl View for Version {
    type V = VersionModel;

    open spec fn view(&self) -> VersionModel {
        VersionModel {
            major: self.major,
            minor: self.minor,
            patch: self.patch,
            pre: models(self.pre@),
            build: maybe_text(self.build),
        }
    }
}

/// Whether `text` is one or more of `[0-9A-Za-z-]`.
fn is_identifier(text: &[char]) -> (is: bool)
    ensures
        is == is_identifier_text(text@),
{
    let mut at: usize = 0;
    while at < text.len()
        invariant
            at <= text@.len(),
            forall|i: int| 0 <= i < at ==> is_identifier_char(#[trigger] text@[i]),
        decreases text@.len() - at,
    {
        let character = text[at];
        if !(('0' <= character && character <= '9') || ('a' <= character && character <= 'z') || (
        'A' <= character && character <= 'Z') || character == '-') {
            assert(!is_identifier_char(text@[at as int]));
            return false;
        }
        at = at + 1;
    }
    text.len() > 0
}

/// Whether `text` holds digits only.
fn is_digits(text: &[char]) -> (is: bool)
    ensures
        is == all_digits(text@),
{
    let mut at: usize = 0;
    while at < text.len()
        invariant
            at <= text@.len(),
            forall|i: int| 0 <= i < at ==> is_digit(#[trigger] text@[i]),
        decreases text@.len() - at,
    {
        if !('0' <= text[at] && text[at] <= '9') {
            assert(!is_digit(text@[at as int]));
            return false;
        }
        at = at + 1;
    }
    true
}

/// Reads a number without leading zeros.
fn component(text: &[char]) -> (number: Option<u64>)
    ensures
        number == component_of(text@),
{
    if text.len() == 0 || !is_digits(text) || (text.len() > 1 && text[0] == '0') {
        return None;
    }
    parse_decimal(text)
}

impl Identifier {
    /// One dot-separated pre-release identifier; numeric ones can't carry
    /// leading zeros.
    pub fn parse(text: &str) -> (identifier: Option<Self>)
        ensures
            match identifier {
                Some(read) => identifier_of(text@) == Some(read@),
                None => identifier_of(text@) is None,
            },
    {
        let characters = chars_of(text);
        if !is_identifier(characters.as_slice()) {
            return None;
        }
        if !is_digits(characters.as_slice()) {
            return Some(Identifier::Alpha(text.to_owned()));
        }
        match component(characters.as_slice()) {
            Some(number) => Some(Identifier::Numeric(number)),
            None => None,
        }
    }

    /// Reads every text of a list as an identifier.
    fn parse_each(parts: &[String]) -> (identifiers: Option<Vec<Self>>)
        ensures
            match identifiers {
                Some(read) => identifiers_of(texts(parts@)) == Some(models(read@)),
                None => identifiers_of(texts(parts@)) is None,
            },
    {
        let mut identifiers: Vec<Identifier> = Vec::new();
        let mut at: usize = 0;
        let ghost all = texts(parts@);
        while at < parts.len()
            invariant
                at <= parts@.len(),
                all == texts(parts@),
                identifiers@.len() == at,
                forall|i: int|
                    0 <= i < at ==> identifier_of(#[trigger] all[i]) == Some(identifiers@[i]@),
            decreases parts@.len() - at,
        {
            match Identifier::parse(parts[at].as_str()) {
                Some(identifier) => identifiers.push(identifier),
                None => {
                    assert(identifier_of(all[at as int]) is None);
                    return None;
                },
            }
            at = at + 1;
        }
        assert(identifiers_of(all)->0 =~= models(identifiers@));
        Some(identifiers)
    }

    /// `beta` or `rc.1` as given to `--pre`/`--id`.
    pub fn parse_all(text: &str) -> (identifiers: Result<Vec<Self>, VersionerError>)
        ensures
            match identifiers {
                Ok(read) => pre_id_of(text@) == Ok::<_, Failure>(models(read@)),
                Err(error) => pre_id_of(text@) == Err::<Seq<IdentifierModel>, _>(error@),
            },
            match identifiers {
                Ok(read) => read@.len() > 0 && all_valid(models(read@)) && printed_all(
                    models(read@),
                ) == text@,
                Err(error) => error@ == Failure::InvalidPreId(text@) && forall|other: Seq<
                    IdentifierModel,
                >|
                    other.len() > 0 && all_valid(other) ==> #[trigger] printed_all(other) != text@,
            },
    {
        let parts = split(text, '.');
        let read = Identifier::parse_each(parts.as_slice());
        match read {
            Some(identifiers) => {
                proof {
                    lemma_identifiers(text@, models(identifiers@));
                }
                Ok(identifiers)
            },
            None => {
                proof {
                    assert forall|other: Seq<IdentifierModel>|
                        other.len() > 0 && all_valid(other) implies #[trigger] printed_all(other)
                        != text@ by {
                        lemma_identifiers(text@, other);
                    }
                }
                Err(VersionerError::InvalidPreId(text.to_owned()))
            },
        }
    }

    /// The identifier as it is written.
    pub fn to_string(&self) -> (text: String)
        ensures
            text@ == self@.printed(),
    {
        match self {
            Identifier::Numeric(number) => decimal_text(*number),
            Identifier::Alpha(text) => text.clone(),
        }
    }
}

// ---------------------------------------------------------------------------
// Reading and printing versions

/// Whether `text` is what may follow a `+`.
fn is_build_text(text: &str) -> (is: bool)
    ensures
        is == is_build(text@),
{
    let parts = split(text, '.');
    let mut at: usize = 0;
    let ghost all = split_at_each(text@, '.');
    while at < parts.len()
        invariant
            at <= parts@.len(),
            texts(parts@) == all,
            all == split_at_each(text@, '.'),
            forall|i: int| 0 <= i < at ==> is_identifier_text(#[trigger] all[i]),
        decreases parts@.len() - at,
    {
        let characters = chars_of(parts[at].as_str());
        assert(characters@ == all[at as int]);
        if !is_identifier(characters.as_slice()) {
            return false;
        }
        at = at + 1;
    }
    true
}

/// Reads a version, if `text` is one.
fn read_version(text: &str) -> (version: Option<Version>)
    ensures
        match version {
            Some(read) => version_of(text@) == Some(read@),
            None => version_of(text@) is None,
        },
{
    let characters = chars_of(text);
    let plus = find(characters.as_slice(), '+');
    proof {
        lemma_first_of(text@, '+');
    }
    let head_text = text_of(characters.as_slice(), 0, plus);
    let ghost head = text@.take(plus as int);
    assert(head_text@ =~= head);
    let build = if plus < characters.len() {
        let build = text_of(characters.as_slice(), plus + 1, characters.len());
        assert(build@ =~= text@.skip(plus + 1));
        if !is_build_text(build.as_str()) {
            return None;
        }
        Some(build)
    } else {
        None
    };
    let head_chars = chars_of(head_text.as_str());
    let dash = find(head_chars.as_slice(), '-');
    proof {
        lemma_first_of(head, '-');
    }
    let core_text = text_of(head_chars.as_slice(), 0, dash);
    assert(core_text@ =~= head.take(dash as int));
    let pre = if dash < head_chars.len() {
        let pre_text = text_of(head_chars.as_slice(), dash + 1, head_chars.len());
        assert(pre_text@ =~= head.skip(dash + 1));
        let parts = split(pre_text.as_str(), '.');
        match Identifier::parse_each(parts.as_slice()) {
            Some(identifiers) => identifiers,
            None => {
                return None;
            },
        }
    } else {
        let none: Vec<Identifier> = Vec::new();
        assert(models(none@) =~= Seq::empty());
        none
    };
    let base = split(core_text.as_str(), '.');
    let ghost parts = split_at_each(head.take(dash as int), '.');
    assert(texts(base@) == parts);
    assert(base@.len() == parts.len());
    if base.len() != 3 {
        return None;
    }
    assert(base@[0]@ == parts[0] && base@[1]@ == parts[1] && base@[2]@ == parts[2]);
    let major_text = chars_of(base[0].as_str());
    let minor_text = chars_of(base[1].as_str());
    let patch_text = chars_of(base[2].as_str());
    let major = match component(major_text.as_slice()) {
        Some(number) => number,
        None => {
            return None;
        },
    };
    let minor = match component(minor_text.as_slice()) {
        Some(number) => number,
        None => {
            return None;
        },
    };
    let patch = match component(patch_text.as_slice()) {
        Some(number) => number,
        None => {
            return None;
        },
    };
    let version = Version { major, minor, patch, pre, build };
    assert(version@.pre =~= version_of(text@)->0.pre);
    Some(version)
}

impl Version {
    /// Reads a semantic version: no leading zeros, optional `-pre` and
    /// `+build`, as in the grammar of semver.org.
    pub fn parse(version: &str) -> (parsed: Result<Self, VersionerError>)
        ensures
            match parsed {
                Ok(read) => read@.valid() && read@.printed() == version@,
                Err(error) => error@ == Failure::InvalidVersion(version@) && forall|other:
                    VersionModel|
                    other.valid() ==> #[trigger] other.printed() != version@,
            },
    {
        match read_version(version) {
            Some(read) => {
                proof {
                    lemma_version(version@, read@);
                }
                Ok(read)
            },
            None => {
                proof {
                    assert forall|other: VersionModel| other.valid() implies
                        #[trigger] other.printed() != version@ by {
                        lemma_version(version@, other);
                    }
                }
                Err(VersionerError::InvalidVersion(version.to_owned()))
            },
        }
    }

    /// The version as it is written.
    pub fn to_string(&self) -> (text: String)
        ensures
            text@ == self@.printed(),
    {
        let mut text = decimal_text(self.major);
        text.push('.');
        let minor = decimal_text(self.minor);
        text.append(minor.as_str());
        text.push('.');
        let patch = decimal_text(self.patch);
        text.append(patch.as_str());
        assert(text@ =~= self@.printed_core());
        let ghost base = text@;
        let ghost written = printed_each(models(self.pre@));
        let mut at: usize = 0;
        assert(base =~= base + Seq::<char>::empty());
        while at < self.pre.len()
            invariant
                at <= self.pre@.len(),
                written == printed_each(models(self.pre@)),
                text@ == (if at == 0 {
                    base
                } else {
                    base + seq!['-'] + joined(written.take(at as int), seq!['.'])
                }),
            decreases self.pre@.len() - at,
        {
            let ghost before = text@;
            if at == 0 {
                text.push('-');
            } else {
                text.push('.');
            }
            let identifier = self.pre[at].to_string();
            text.append(identifier.as_str());
            proof {
                let longer = written.take(at + 1);
                assert(longer.drop_last() =~= written.take(at as int));
                assert(longer.last() == identifier@);
                if at == 0 {
                    assert(joined(longer, seq!['.']) == longer[0]);
                    assert(text@ =~= base + seq!['-'] + longer[0]);
                } else {
                    assert(text@ =~= base + seq!['-'] + (joined(written.take(at as int), seq!['.'])
                        + seq!['.'] + identifier@));
                }
            }
            at = at + 1;
        }
        assert(written.take(at as int) =~= written);
        assert(text@ == self@.printed_head());
        if let Some(build) = &self.build {
            text.push('+');
            text.append(build.as_str());
            assert(text@ =~= self@.printed());
        }
        text
    }
}

/// Versions that are written alike are the same.
pub proof fn law_printing_is_injective(left: VersionModel, right: VersionModel)
    requires
        left.valid(),
        right.valid(),
        left.printed() == right.printed(),
    ensures
        left == right,
{
    lemma_version(left.printed(), left);
    lemma_version(left.printed(), right);
}

/// Whether a character may stand in a version: `[0-9A-Za-z.+-]`.
pub open spec fn is_version_char(character: char) -> bool {
    is_identifier_char(character) || character == '.' || character == '+'
}

/// Whether a text has only characters of versions.
spec fn is_version_text(text: Seq<char>) -> bool {
    forall|i: int| 0 <= i < text.len() ==> is_version_char(#[trigger] text[i])
}

proof fn lemma_joined_version_text(parts: Seq<Seq<char>>)
    requires
        forall|i: int| 0 <= i < parts.len() ==> is_version_text(#[trigger] parts[i]),
    ensures
        is_version_text(joined(parts, seq!['.'])),
    decreases parts.len(),
{
    if parts.len() == 1 {
        assert(is_version_text(parts[0]));
    } else if parts.len() > 1 {
        let fewer = parts.drop_last();
        assert forall|i: int| 0 <= i < fewer.len() implies is_version_text(#[trigger] fewer[i]) by {
            assert(fewer[i] == parts[i]);
        }
        lemma_joined_version_text(fewer);
        assert(is_version_text(parts[parts.len() - 1]));
    }
}

/// A version is written with `[0-9A-Za-z.+-]` only.
pub proof fn law_versions_are_plain_text(version: VersionModel)
    requires
        version.valid(),
    ensures
        version.printed().len() > 0,
        forall|i: int|
            0 <= i < version.printed().len() ==> is_version_char(#[trigger] version.printed()[i]),
{
    let written = printed_each(version.pre);
    assert forall|i: int| 0 <= i < written.len() implies is_version_text(#[trigger] written[i]) by {
        assert(version.pre[i].valid());
        lemma_identifier_clean(version.pre[i]);
    }
    lemma_joined_version_text(written);
    if let Some(build) = version.build {
        let parts = split_at_each(build, '.');
        lemma_split(build, '.');
        assert forall|i: int| 0 <= i < parts.len() implies is_version_text(#[trigger] parts[i]) by {
            assert(is_identifier_text(parts[i]));
        }
        lemma_joined_version_text(parts);
    }
    lemma_decimal(version.major as nat);
    lemma_decimal(version.minor as nat);
    lemma_decimal(version.patch as nat);
    assert(is_version_text(decimal(version.major as nat)));
    assert(is_version_text(decimal(version.minor as nat)));
    assert(is_version_text(decimal(version.patch as nat)));
    assert(is_version_text(version.printed_core()));
    assert(is_version_text(version.printed_head()));
    assert(is_version_text(version.printed()));
}

// ---------------------------------------------------------------------------
// Bumping

#[derive(Debug, Clone, Copy, PartialEq, Eq, Structural)]
pub enum Level {
    Major,
    Minor,
    Patch,
}

#[derive(Debug, Clone, PartialEq, Eq)]
pub enum Bump {
    /// `major`/`minor`/`patch`. On a pre-release of that level this finalizes
    /// it instead of skipping ahead: 2.0.0-rc.1 → 2.0.0 for `major`.
    Release(Level),
    /// `major --pre rc`: bump the level, then open a pre-release of it.
    Start(Level, Vec<Identifier>),
    /// `pre`: the next pre-release, continuing the current one when `id`
    /// matches (or is omitted) and opening one on the next patch otherwise.
    Next(Option<Vec<Identifier>>),
}

/// A [`Bump`] with its identifiers as models.
pub enum BumpModel {
    Release(Level),
    Start(Level, Seq<IdentifierModel>),
    Next(Option<Seq<IdentifierModel>>),
}

impl View for Bump {
    type V = BumpModel;

    open spec fn view(&self) -> BumpModel {
        match self {
            Bump::Release(level) => BumpModel::Release(*level),
            Bump::Start(level, id) => BumpModel::Start(*level, models(id@)),
            Bump::Next(Some(id)) => BumpModel::Next(Some(models(id@))),
            Bump::Next(None) => BumpModel::Next(None),
        }
    }
}

/// A number one higher, if it still fits.
pub open spec fn one_more(number: u64) -> Result<u64, Failure> {
    if number == u64::MAX {
        Err(Failure::VersionOverflow)
    } else {
        Ok((number + 1) as u64)
    }
}

/// `rc` → `rc.0`, and a bare `0` without an identifier.
pub open spec fn opened_pre(id: Seq<IdentifierModel>) -> Seq<IdentifierModel> {
    id.push(IdentifierModel::Numeric(0))
}

/// Position of the last numeric identifier, if there is one.
pub open spec fn last_numeric(pre: Seq<IdentifierModel>) -> Option<int>
    decreases pre.len(),
{
    if pre.len() == 0 {
        None
    } else if pre.last() is Numeric {
        Some(pre.len() - 1)
    } else {
        last_numeric(pre.drop_last())
    }
}

/// The pre-release after `pre`: its last numeric identifier one higher, or
/// `.0` at its end when there is none.
pub open spec fn advanced_pre(pre: Seq<IdentifierModel>) -> Result<Seq<IdentifierModel>, Failure> {
    match last_numeric(pre) {
        None => Ok(pre.push(IdentifierModel::Numeric(0))),
        Some(at) => match one_more(pre[at]->Numeric_0) {
            Ok(number) => Ok(pre.update(at, IdentifierModel::Numeric(number))),
            Err(failure) => Err(failure),
        },
    }
}

impl VersionModel {
    /// `level` bumped, ignoring any pre-release: always a new x.y.z.
    pub open spec fn incremented(self, level: Level) -> Result<VersionModel, Failure> {
        match level {
            Level::Major => match one_more(self.major) {
                Ok(major) => Ok(VersionModel::release(major, 0, 0)),
                Err(failure) => Err(failure),
            },
            Level::Minor => match one_more(self.minor) {
                Ok(minor) => Ok(VersionModel::release(self.major, minor, 0)),
                Err(failure) => Err(failure),
            },
            Level::Patch => match one_more(self.patch) {
                Ok(patch) => Ok(VersionModel::release(self.major, self.minor, patch)),
                Err(failure) => Err(failure),
            },
        }
    }

    /// Whether the version is a pre-release of a release of this level.
    pub open spec fn leads_up_to(self, level: Level) -> bool {
        &&& self.pre.len() > 0
        &&& match level {
            Level::Major => self.minor == 0 && self.patch == 0,
            Level::Minor => self.patch == 0,
            Level::Patch => true,
        }
    }

    /// The release that a pre-release leads up to.
    pub open spec fn finalized(self) -> VersionModel {
        VersionModel::release(self.major, self.minor, self.patch)
    }

    /// The version after a bump.
    pub open spec fn bumped(self, bump: BumpModel) -> Result<VersionModel, Failure> {
        match bump {
            BumpModel::Release(level) => if self.leads_up_to(level) {
                Ok(self.finalized())
            } else {
                self.incremented(level)
            },
            BumpModel::Start(level, id) => match self.incremented(level) {
                Ok(next) => Ok(next.with_pre(opened_pre(id))),
                Err(failure) => Err(failure),
            },
            BumpModel::Next(id) => if self.continues(id) {
                match advanced_pre(self.pre) {
                    Ok(pre) => Ok(self.finalized().with_pre(pre)),
                    Err(failure) => Err(failure),
                }
            } else if self.pre.len() > 0 {
                Ok(self.finalized().with_pre(opened_pre(wanted(id))))
            } else {
                match self.incremented(Level::Patch) {
                    Ok(next) => Ok(next.with_pre(opened_pre(wanted(id)))),
                    Err(failure) => Err(failure),
                }
            },
        }
    }

    /// Whether `pre` goes on with the current pre-release: there is one, and
    /// it starts with the identifiers asked for, if any are.
    pub open spec fn continues(self, id: Option<Seq<IdentifierModel>>) -> bool {
        &&& self.pre.len() > 0
        &&& id matches Some(id) ==> id.is_prefix_of(self.pre)
    }
}

/// The identifiers asked for, or none.
pub open spec fn wanted(id: Option<Seq<IdentifierModel>>) -> Seq<IdentifierModel> {
    match id {
        Some(id) => id,
        None => Seq::empty(),
    }
}

impl Identifier {
    /// Whether two identifiers are the same.
    fn same(&self, other: &Identifier) -> (same: bool)
        ensures
            same == (self@ == other@),
    {
        match (self, other) {
            (Identifier::Numeric(left), Identifier::Numeric(right)) => *left == *right,
            (Identifier::Alpha(left), Identifier::Alpha(right)) => same_text(
                left.as_str(),
                right.as_str(),
            ),
            _ => false,
        }
    }

    /// The same identifier once more.
    fn copied(&self) -> (copy: Identifier)
        ensures
            copy@ == self@,
    {
        match self {
            Identifier::Numeric(number) => Identifier::Numeric(*number),
            Identifier::Alpha(text) => Identifier::Alpha(text.clone()),
        }
    }
}

/// The same identifiers once more.
fn copied_all(identifiers: &[Identifier]) -> (copies: Vec<Identifier>)
    ensures
        models(copies@) == models(identifiers@),
{
    let mut copies: Vec<Identifier> = Vec::new();
    let mut at: usize = 0;
    while at < identifiers.len()
        invariant
            at <= identifiers@.len(),
            copies@.len() == at,
            forall|i: int| 0 <= i < at ==> (#[trigger] copies@[i])@ == identifiers@[i]@,
        decreases identifiers@.len() - at,
    {
        copies.push(identifiers[at].copied());
        at = at + 1;
    }
    assert(models(copies@) =~= models(identifiers@));
    copies
}

/// Whether `identifiers` starts with `start`.
fn starts_with(identifiers: &[Identifier], start: &[Identifier]) -> (starts: bool)
    ensures
        starts == models(start@).is_prefix_of(models(identifiers@)),
{
    if start.len() > identifiers.len() {
        return false;
    }
    let mut at: usize = 0;
    let ghost all = models(identifiers@);
    let ghost first = models(start@);
    while at < start.len()
        invariant
            at <= start@.len() <= identifiers@.len(),
            all == models(identifiers@),
            first == models(start@),
            forall|i: int| 0 <= i < at ==> #[trigger] first[i] == all[i],
        decreases start@.len() - at,
    {
        if !start[at].same(&identifiers[at]) {
            assert(first[at as int] != all.subrange(0, first.len() as int)[at as int]);
            return false;
        }
        at = at + 1;
    }
    assert(first =~= all.subrange(0, first.len() as int));
    true
}

/// `rc` → `rc.0`, and a bare `0` without an identifier, as npm does.
pub fn opened(id: &[Identifier]) -> (pre: Vec<Identifier>)
    ensures
        models(pre@) == opened_pre(models(id@)),
{
    let mut pre = copied_all(id);
    pre.push(Identifier::Numeric(0));
    assert(models(pre@) =~= opened_pre(models(id@)));
    pre
}

/// What [`last_numeric`] says, without recursion.
pub proof fn lemma_last_numeric(pre: Seq<IdentifierModel>)
    ensures
        match last_numeric(pre) {
            Some(at) => 0 <= at < pre.len() && pre[at] is Numeric && forall|i: int|
                at < i < pre.len() ==> (#[trigger] pre[i]) is Alpha,
            None => forall|i: int| 0 <= i < pre.len() ==> (#[trigger] pre[i]) is Alpha,
        },
    decreases pre.len(),
{
    if pre.len() > 0 && !(pre.last() is Numeric) {
        let fewer = pre.drop_last();
        lemma_last_numeric(fewer);
        assert forall|i: int| 0 <= i < fewer.len() implies fewer[i] == pre[i] by {}
    }
}

/// Increments the last numeric identifier, or appends `.0` when there is none.
pub fn advanced(pre: &[Identifier]) -> (next: Result<Vec<Identifier>, VersionerError>)
    ensures
        match next {
            Ok(advanced) => advanced_pre(models(pre@)) == Ok::<_, Failure>(models(advanced@)),
            Err(error) => advanced_pre(models(pre@)) == Err::<Seq<IdentifierModel>, _>(error@),
        },
{
    let mut next = copied_all(pre);
    let ghost all = models(pre@);
    proof {
        lemma_last_numeric(all);
    }
    assert(next@.len() == all.len());
    let mut at: usize = next.len();
    while at > 0
        invariant
            at <= next@.len(),
            models(next@) == all,
            all == models(pre@),
            forall|i: int| at <= i < next@.len() ==> (#[trigger] all[i]) is Alpha,
            match last_numeric(all) {
                Some(at) => 0 <= at < all.len() && all[at] is Numeric && forall|i: int|
                    at < i < all.len() ==> (#[trigger] all[i]) is Alpha,
                None => forall|i: int| 0 <= i < all.len() ==> (#[trigger] all[i]) is Alpha,
            },
        decreases at,
    {
        at = at - 1;
        assert(models(next@)[at as int] == next@[at as int]@);
        if let Identifier::Numeric(number) = &next[at] {
            assert(last_numeric(all) == Some(at as int));
            return match number.checked_add(1) {
                Some(higher) => {
                    next.set(at, Identifier::Numeric(higher));
                    assert(models(next@) =~= all.update(
                        at as int,
                        IdentifierModel::Numeric(higher),
                    ));
                    Ok(next)
                },
                None => Err(VersionerError::VersionOverflow),
            };
        }
    }
    next.push(Identifier::Numeric(0));
    assert(models(next@) =~= all.push(IdentifierModel::Numeric(0)));
    Ok(next)
}

/// A number one higher, if it still fits.
fn next_number(number: u64) -> (next: Result<u64, VersionerError>)
    ensures
        match next {
            Ok(higher) => one_more(number) == Ok::<_, Failure>(higher),
            Err(error) => one_more(number) == Err::<u64, _>(error@),
        },
{
    match number.checked_add(1) {
        Some(higher) => Ok(higher),
        None => Err(VersionerError::VersionOverflow),
    }
}

impl Version {
    /// The version `x.y.z`.
    pub fn release(major: u64, minor: u64, patch: u64) -> (version: Self)
        ensures
            version@ == VersionModel::release(major, minor, patch),
    {
        let version = Version { major, minor, patch, pre: Vec::new(), build: None };
        assert(version@.pre =~= Seq::empty());
        version
    }

    /// The version with another pre-release.
    pub fn with_pre(self, pre: Vec<Identifier>) -> (version: Self)
        ensures
            version@ == self@.with_pre(models(pre@)),
    {
        Version { major: self.major, minor: self.minor, patch: self.patch, pre, build: self.build }
    }

    /// `level` bumped, ignoring any pre-release: always a new x.y.z.
    pub fn increment(&self, level: Level) -> (next: Result<Self, VersionerError>)
        ensures
            outcome(next) == self@.incremented(level),
    {
        match level {
            Level::Major => match next_number(self.major) {
                Ok(major) => Ok(Version::release(major, 0, 0)),
                Err(error) => Err(error),
            },
            Level::Minor => match next_number(self.minor) {
                Ok(minor) => Ok(Version::release(self.major, minor, 0)),
                Err(error) => Err(error),
            },
            Level::Patch => match next_number(self.patch) {
                Ok(patch) => Ok(Version::release(self.major, self.minor, patch)),
                Err(error) => Err(error),
            },
        }
    }

    /// The version after a bump; build metadata is dropped.
    pub fn bump(&self, bump: &Bump) -> (next: Result<Self, VersionerError>)
        ensures
            outcome(next) == self@.bumped(bump@),
    {
        match bump {
            Bump::Release(level) => {
                let finalizes = self.pre.len() > 0 && match *level {
                    Level::Major => self.minor == 0 && self.patch == 0,
                    Level::Minor => self.patch == 0,
                    Level::Patch => true,
                };
                if finalizes {
                    Ok(Version::release(self.major, self.minor, self.patch))
                } else {
                    self.increment(*level)
                }
            },
            Bump::Start(level, id) => match self.increment(*level) {
                Ok(next) => Ok(next.with_pre(opened(id.as_slice()))),
                Err(error) => Err(error),
            },
            Bump::Next(id) => {
                let continues = self.pre.len() > 0 && match id {
                    Some(id) => starts_with(self.pre.as_slice(), id.as_slice()),
                    None => true,
                };
                if continues {
                    let base = Version::release(self.major, self.minor, self.patch);
                    return match advanced(self.pre.as_slice()) {
                        Ok(pre) => Ok(base.with_pre(pre)),
                        Err(error) => Err(error),
                    };
                }
                let base = if self.pre.len() == 0 {
                    match self.increment(Level::Patch) {
                        Ok(next) => next,
                        Err(error) => {
                            return Err(error);
                        },
                    }
                } else {
                    Version::release(self.major, self.minor, self.patch)
                };
                let pre = match id {
                    Some(id) => opened(id.as_slice()),
                    None => {
                        let none: Vec<Identifier> = Vec::new();
                        assert(models(none@) =~= Seq::empty());
                        opened(none.as_slice())
                    },
                };
                Ok(base.with_pre(pre))
            },
        }
    }
}

} // verus!
