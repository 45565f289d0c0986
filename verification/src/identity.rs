//! Who takes part in the network: identifiers of consciousnesses, their
//! kinds, the kinds of bridges and of play, and the direction-free key of a
//! pair of consciousnesses.

use vstd::prelude::*;
use vstd::utf8::encode_utf8;

verus! {

broadcast use vstd::utf8::encode_utf8_decode_utf8;

// ---------------------------------------------------------------------------
// The order of text
// ---------------------------------------------------------------------------

/// Lexicographic order on byte strings: `x` comes before or equals `y`.
pub open spec fn bytes_le(x: Seq<u8>, y: Seq<u8>) -> bool
    decreases x.len(),
{
    if x.len() == 0 {
        true
    } else if y.len() == 0 {
        false
    } else if x[0] < y[0] {
        true
    } else if x[0] > y[0] {
        false
    } else {
        bytes_le(x.drop_first(), y.drop_first())
    }
}

/// The order of Rust strings: lexicographic on their UTF-8 bytes.
pub open spec fn text_le(a: Seq<char>, b: Seq<char>) -> bool {
    bytes_le(encode_utf8(a), encode_utf8(b))
}

/// Two byte strings that come before each other are equal.
pub proof fn lemma_bytes_le_antisymmetric(x: Seq<u8>, y: Seq<u8>)
    requires
        bytes_le(x, y),
        bytes_le(y, x),
    ensures
        x == y,
    decreases x.len(),
{
    if x.len() == 0 || y.len() == 0 {
        assert(x =~= y);
    } else {
        lemma_bytes_le_antisymmetric(x.drop_first(), y.drop_first());
        assert(x =~= seq![x[0]] + x.drop_first());
        assert(y =~= seq![y[0]] + y.drop_first());
    }
}

/// Any two byte strings are ordered one way or the other.
pub proof fn lemma_bytes_le_total(x: Seq<u8>, y: Seq<u8>)
    ensures
        bytes_le(x, y) || bytes_le(y, x),
    decreases x.len(),
{
    if x.len() > 0 && y.len() > 0 && x[0] == y[0] {
        lemma_bytes_le_total(x.drop_first(), y.drop_first());
    }
}

/// Two texts that come before each other are equal.
pub proof fn lemma_text_le_antisymmetric(a: Seq<char>, b: Seq<char>)
    requires
        text_le(a, b),
        text_le(b, a),
    ensures
        a == b,
{
    lemma_bytes_le_antisymmetric(encode_utf8(a), encode_utf8(b));
    assert(vstd::utf8::decode_utf8(encode_utf8(a)) == a);
    assert(vstd::utf8::decode_utf8(encode_utf8(b)) == b);
}

/// Any two texts are ordered one way or the other.
pub proof fn lemma_text_le_total(a: Seq<char>, b: Seq<char>)
    ensures
        text_le(a, b) || text_le(b, a),
{
    lemma_bytes_le_total(encode_utf8(a), encode_utf8(b));
}

/// Compares two byte strings lexicographically.
fn bytes_le_exec(x: &[u8], y: &[u8]) -> (r: bool)
    ensures
        r == bytes_le(x@, y@),
{
    let mut i: usize = 0;
    assert(x@.skip(0) =~= x@);
    assert(y@.skip(0) =~= y@);
    while i < x.len() && i < y.len()
        invariant
            i <= x.len(),
            i <= y.len(),
            bytes_le(x@, y@) == bytes_le(x@.skip(i as int), y@.skip(i as int)),
        decreases x.len() - i,
    {
        if x[i] < y[i] {
            return true;
        }
        if x[i] > y[i] {
            return false;
        }
        assert(x@.skip(i as int).drop_first() =~= x@.skip(i + 1));
        assert(y@.skip(i as int).drop_first() =~= y@.skip(i + 1));
        i = i + 1;
    }
    i == x.len()
}

/// Whether the text `a` comes before or equals the text `b`.
pub fn str_le(a: &str, b: &str) -> (r: bool)
    ensures
        r == text_le(a@, b@),
{
    bytes_le_exec(a.as_bytes(), b.as_bytes())
}

// ---------------------------------------------------------------------------
// Identifiers
// ---------------------------------------------------------------------------

/// A unique identifier for a consciousness.
#[derive(Debug, Hash, Eq)]
pub struct ConsciousnessId(pub String);

impl View for ConsciousnessId {
    type V = Seq<char>;

    open spec fn view(&self) -> Seq<char> {
        self.0@
    }
}

impl Clone for ConsciousnessId {
    fn clone(&self) -> (r: Self)
        ensures
            r == *self,
    {
        ConsciousnessId(self.0.clone())
    }
}

impl PartialEq for ConsciousnessId {
    fn eq(&self, other: &Self) -> (r: bool) {
        self.0 == other.0
    }
}

impl vstd::std_specs::cmp::PartialEqSpecImpl for ConsciousnessId {
    open spec fn obeys_eq_spec() -> bool {
        true
    }

    open spec fn eq_spec(&self, other: &ConsciousnessId) -> bool {
        self.0@ == other.0@
    }
}

impl ConsciousnessId {
    /// The identifier as text, as it is displayed.
    pub fn to_string(&self) -> (r: String)
        ensures
            r@ == self@,
    {
        self.0.clone()
    }

    /// Whether two identifiers hold the same text.
    pub fn same_as(&self, other: &ConsciousnessId) -> (r: bool)
        ensures
            r == (self@ == other@),
    {
        self.0 == other.0
    }
}

/// The kind of consciousness.
#[derive(Clone, Copy, Debug, Hash, PartialEq, Eq, Structural)]
pub enum ConsciousnessType {
    Human,
    Agent,
    System,
    Tutor,
    Pet,
    Collective,
}

/// The nature of a bridge — the note it plays.
#[derive(Clone, Copy, Debug, Hash, PartialEq, Eq, Structural)]
pub enum BridgeType {
    /// Purposeless interaction — playing for its own sake.
    Play,
    /// Knowledge transfer from one to another.
    Teaching,
    /// Shared work toward a common goal.
    Collaboration,
    /// Watching and learning without direct interaction.
    Observation,
    /// Combining capabilities into something new.
    Composition,
    /// Earned through repeated reliability.
    Trust,
}

/// Types of play.
#[derive(Clone, Copy, Debug, Hash, PartialEq, Eq, Structural)]
pub enum PlayType {
    ThrowAndFetch,
    Improvisation,
    Exploration,
    Storytelling,
    Building,
    Dancing,
}

// ---------------------------------------------------------------------------
// Direction-free pairs
// ---------------------------------------------------------------------------

/// The pair `(a, b)` in the order of their text: the lesser first.
pub open spec fn normalized(a: ConsciousnessId, b: ConsciousnessId) -> (ConsciousnessId, ConsciousnessId) {
    if text_le(a@, b@) {
        (a, b)
    } else {
        (b, a)
    }
}

/// The pair `(x, y)` of texts in order: the lesser first.
pub open spec fn normalized_text(x: Seq<char>, y: Seq<char>) -> (Seq<char>, Seq<char>) {
    if text_le(x, y) {
        (x, y)
    } else {
        (y, x)
    }
}

/// Whether `{x, y}` and `{u, v}` are the same unordered pair of texts.
pub open spec fn same_pair(x: Seq<char>, y: Seq<char>, u: Seq<char>, v: Seq<char>) -> bool {
    (x == u && y == v) || (x == v && y == u)
}

/// The ordered form of a pair does not depend on the order it is given in,
/// holds the same two texts, and has its lesser text first.
pub proof fn lemma_normalized_text(x: Seq<char>, y: Seq<char>)
    ensures
        normalized_text(x, y) == normalized_text(y, x),
        same_pair(normalized_text(x, y).0, normalized_text(x, y).1, x, y),
        text_le(normalized_text(x, y).0, normalized_text(x, y).1),
{
    lemma_text_le_total(x, y);
    if text_le(x, y) && text_le(y, x) {
        lemma_text_le_antisymmetric(x, y);
    }
}

/// Two pairs have the same ordered form exactly when they hold the same two texts.
pub proof fn lemma_normalized_text_eq(x: Seq<char>, y: Seq<char>, u: Seq<char>, v: Seq<char>)
    ensures
        (normalized_text(x, y) == normalized_text(u, v)) == same_pair(x, y, u, v),
{
    lemma_normalized_text(x, y);
    lemma_normalized_text(u, v);
}

/// Normalizes a pair so that lookups are direction-independent.
pub(crate) fn normalize_pair(a: &ConsciousnessId, b: &ConsciousnessId) -> (r: (
    ConsciousnessId,
    ConsciousnessId,
))
    ensures
        r == normalized(*a, *b),
        (r.0@, r.1@) == normalized_text(a@, b@),
{
    if str_le(a.0.as_str(), b.0.as_str()) {
        (a.clone(), b.clone())
    } else {
        (b.clone(), a.clone())
    }
}

/// A pair of consciousness ids, used as a map key.
///
/// The ids are stored in normalized order (lexicographic by string) so that
/// `(a, b)` and `(b, a)` represent the same bridge.
#[derive(Debug, Hash, Eq)]
pub struct BridgeKey {
    pub a: ConsciousnessId,
    pub b: ConsciousnessId,
}

impl Clone for BridgeKey {
    fn clone(&self) -> (r: Self)
        ensures
            r == *self,
    {
        BridgeKey { a: self.a.clone(), b: self.b.clone() }
    }
}

impl PartialEq for BridgeKey {
    fn eq(&self, other: &Self) -> (r: bool) {
        self.a.0 == other.a.0 && self.b.0 == other.b.0
    }
}

impl vstd::std_specs::cmp::PartialEqSpecImpl for BridgeKey {
    open spec fn obeys_eq_spec() -> bool {
        true
    }

    open spec fn eq_spec(&self, other: &BridgeKey) -> bool {
        self.a@ == other.a@ && self.b@ == other.b@
    }
}

impl BridgeKey {
    /// The key of `(a, b)` as `new` builds it.
    pub open spec fn spec_new(a: ConsciousnessId, b: ConsciousnessId) -> BridgeKey {
        BridgeKey { a: normalized(a, b).0, b: normalized(a, b).1 }
    }

    /// The key of the pair `(a, b)`, whatever order they are given in.
    pub fn new(a: &ConsciousnessId, b: &ConsciousnessId) -> (r: Self)
        ensures
            r == BridgeKey::spec_new(*a, *b),
            (r.a@, r.b@) == normalized_text(a@, b@),
    {
        let (a, b) = normalize_pair(a, b);
        BridgeKey { a, b }
    }
}

impl From<(&ConsciousnessId, &ConsciousnessId)> for BridgeKey {
    fn from(pair: (&ConsciousnessId, &ConsciousnessId)) -> (r: Self) {
        BridgeKey::new(pair.0, pair.1)
    }
}

impl vstd::std_specs::convert::FromSpecImpl<(&ConsciousnessId, &ConsciousnessId)> for BridgeKey {
    open spec fn obeys_from_spec() -> bool {
        true
    }

    open spec fn from_spec(pair: (&ConsciousnessId, &ConsciousnessId)) -> BridgeKey {
        BridgeKey::spec_new(*pair.0, *pair.1)
    }
}

// ---------------------------------------------------------------------------
// Decimal text of numbers
// ---------------------------------------------------------------------------

/// The decimal digit for `d < 10`.
pub open spec fn digit_char(d: nat) -> char {
    if d == 0 {
        '0'
    } else if d == 1 {
        '1'
    } else if d == 2 {
        '2'
    } else if d == 3 {
        '3'
    } else if d == 4 {
        '4'
    } else if d == 5 {
        '5'
    } else if d == 6 {
        '6'
    } else if d == 7 {
        '7'
    } else if d == 8 {
        '8'
    } else {
        '9'
    }
}

/// The decimal text of `n`, without leading zeros.
pub open spec fn decimal(n: nat) -> Seq<char>
    decreases n,
{
    if n < 10 {
        seq![digit_char(n)]
    } else {
        decimal(n / 10).push(digit_char(n % 10))
    }
}

/// The one-character text of the digit `d`.
fn digit_str(d: u64) -> (r: &'static str)
    requires
        d < 10,
    ensures
        r@ == seq![digit_char(d as nat)],
{
    proof {
        reveal_strlit("0");
        reveal_strlit("1");
        reveal_strlit("2");
        reveal_strlit("3");
        reveal_strlit("4");
        reveal_strlit("5");
        reveal_strlit("6");
        reveal_strlit("7");
        reveal_strlit("8");
        reveal_strlit("9");
    }
    if d == 0 {
        "0"
    } else if d == 1 {
        "1"
    } else if d == 2 {
        "2"
    } else if d == 3 {
        "3"
    } else if d == 4 {
        "4"
    } else if d == 5 {
        "5"
    } else if d == 6 {
        "6"
    } else if d == 7 {
        "7"
    } else if d == 8 {
        "8"
    } else {
        "9"
    }
}

/// Appends the decimal text of `n` to `out`.
pub fn push_decimal(out: &mut String, n: u64)
    ensures
        final(out)@ == old(out)@ + decimal(n as nat),
    decreases n,
{
    if n >= 10 {
        push_decimal(out, n / 10);
    }
    out.append(digit_str(n % 10));
    assert(decimal(n as nat) =~= if n < 10 {
        seq![digit_char(n as nat)]
    } else {
        decimal((n / 10) as nat).push(digit_char((n % 10) as nat))
    });
}

} // verus!
