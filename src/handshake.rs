use vstd::prelude::*;
use crate::decimal::{decimal_of, lemma_decimal_value, lemma_port_round_trip};
use crate::supervisor::{effective_port_of, DEFAULT_PORT};

verus! {

/// The substring by which the worker announces that it is ready.
pub const MARKER: &'static str = "Server starting on port";

/// Whether `line` holds `MARKER` at some position.
pub open spec fn has_marker(line: Seq<char>) -> bool {
    exists|i: int|
        0 <= i && i + MARKER@.len() <= line.len() && #[trigger] line.subrange(i, i + MARKER@.len())
            == MARKER@
}

/// Unicode `White_Space`, the set of separators between tokens of a line.
pub open spec fn is_space(c: char) -> bool {
    let u = c as u32;
    (0x9 <= u && u <= 0xd) || u == 0x20 || u == 0x85 || u == 0xa0 || u == 0x1680 || (0x2000 <= u
        && u <= 0x200a) || u == 0x2028 || u == 0x2029 || u == 0x202f || u == 0x205f || u == 0x3000
}

/// Whether `c` separates tokens.
pub fn is_space_char(c: char) -> (r: bool)
    ensures
        r == is_space(c),
{
    let u = c as u32;
    (0x9 <= u && u <= 0xd) || u == 0x20 || u == 0x85 || u == 0xa0 || u == 0x1680 || (0x2000 <= u
        && u <= 0x200a) || u == 0x2028 || u == 0x2029 || u == 0x202f || u == 0x205f || u == 0x3000
}

/// The length of `s` once the separators at its end are cut off.
pub open spec fn trimmed_len(s: Seq<char>) -> nat
    decreases s.len(),
{
    if s.len() > 0 && is_space(s.last()) {
        trimmed_len(s.drop_last())
    } else {
        s.len()
    }
}

/// Where the run of non-separators that ends at `end` begins.
pub open spec fn token_start(s: Seq<char>, end: nat) -> nat
    decreases end,
{
    if 0 < end <= s.len() && !is_space(s[end - 1]) {
        token_start(s, (end - 1) as nat)
    } else {
        end
    }
}

/// The last maximal run of non-separators of `s`, if `s` has any.
pub open spec fn last_token_of(s: Seq<char>) -> Option<Seq<char>> {
    let end = trimmed_len(s);
    if end == 0 {
        None
    } else {
        Some(s.subrange(token_start(s, end) as int, end as int))
    }
}

proof fn lemma_trimmed_len_bound(s: Seq<char>)
    ensures
        trimmed_len(s) <= s.len(),
        trimmed_len(s) > 0 ==> !is_space(s[trimmed_len(s) - 1]),
    decreases s.len(),
{
    if s.len() > 0 && is_space(s.last()) {
        lemma_trimmed_len_bound(s.drop_last());
    }
}

/// A decimal digit.
pub open spec fn is_digit(c: char) -> bool {
    0x30 <= (c as u32) && (c as u32) <= 0x39
}

/// The value of a decimal digit.
pub open spec fn digit_value(c: char) -> nat {
    ((c as u32) - 0x30) as nat
}

/// The value of a string of decimal digits, most significant first.
pub open spec fn decimal_value(d: Seq<char>) -> nat
    decreases d.len(),
{
    if d.len() == 0 {
        0
    } else {
        10 * decimal_value(d.drop_last()) + digit_value(d.last())
    }
}

/// `t` without one leading `+`.
pub open spec fn unsigned_part(t: Seq<char>) -> Seq<char> {
    if t.len() > 0 && t[0] == '+' {
        t.drop_first()
    } else {
        t
    }
}

/// A port number written in decimal, with an optional leading `+`: the form
/// that std reads as a `u16`.
pub open spec fn port_value(t: Seq<char>) -> Option<u16> {
    let d = unsigned_part(t);
    if d.len() > 0 && (forall|i: int| 0 <= i < d.len() ==> is_digit(#[trigger] d[i]))
        && decimal_value(d) <= u16::MAX {
        Some(decimal_value(d) as u16)
    } else {
        None
    }
}

proof fn lemma_prefix_value_le(d: Seq<char>, k: int)
    requires
        0 <= k <= d.len(),
    ensures
        decimal_value(d.take(k)) <= decimal_value(d),
    decreases d.len(),
{
    if k == d.len() {
        assert(d.take(k) =~= d);
    } else {
        assert(d.drop_last().take(k) =~= d.take(k));
        lemma_prefix_value_le(d.drop_last(), k);
    }
}

/// The characters of `s`, in order.
fn chars_of(s: &str) -> (r: Vec<char>)
    ensures
        r@ == s@,
{
    let mut v: Vec<char> = Vec::new();
    for c in it: s.chars()
        invariant
            v@ == it.seq().take(it.index() as int),
    {
        v.push(c);
    }
    v
}

/// Whether `needle` occurs in `hay` at position `at`.
fn occurs_at(hay: &Vec<char>, needle: &Vec<char>, at: usize) -> (r: bool)
    requires
        at + needle.len() <= hay.len(),
    ensures
        r == (hay@.subrange(at as int, at + needle.len()) == needle@),
{
    let mut j: usize = 0;
    while j < needle.len()
        invariant
            j <= needle.len(),
            at + needle.len() <= hay.len(),
            forall|k: int| 0 <= k < j ==> hay@[at + k] == needle@[k],
        decreases needle.len() - j,
    {
        if hay[at + j] != needle[j] {
            assert(hay@.subrange(at as int, at + needle.len())[j as int] != needle@[j as int]);
            return false;
        }
        j = j + 1;
    }
    assert(hay@.subrange(at as int, at + needle.len()) =~= needle@);
    true
}

/// Whether `line` announces readiness, that is holds `MARKER`.
pub fn contains_marker(line: &str) -> (r: bool)
    ensures
        r == has_marker(line@),
{
    let hay = chars_of(line);
    let needle = chars_of(MARKER);
    if needle.len() > hay.len() {
        return false;
    }
    proof {
        reveal_strlit("Server starting on port");
    }
    let last = hay.len() - needle.len();
    let mut at: usize = 0;
    while at <= last
        invariant
            hay@ == line@,
            needle@ == MARKER@,
            needle.len() > 0,
            last + needle.len() == hay.len(),
            forall|i: int|
                0 <= i < at ==> #[trigger] hay@.subrange(i, i + needle.len()) != needle@,
        decreases last + 1 - at,
    {
        if occurs_at(&hay, &needle, at) {
            return true;
        }
        at = at + 1;
    }
    false
}

/// The last whitespace-delimited token of `line`, if there is one.
pub fn last_token(line: &str) -> (r: Option<&str>)
    ensures
        r is Some <==> last_token_of(line@) is Some,
        r is Some ==> r->0@ == last_token_of(line@)->0,
{
    let v = chars_of(line);
    let mut end: usize = v.len();
    assert(v@.take(end as int) =~= v@);
    while end > 0 && is_space_char(v[end - 1])
        invariant
            v@ == line@,
            end <= v.len(),
            trimmed_len(v@) == trimmed_len(v@.take(end as int)),
        decreases end,
    {
        assert(v@.take(end as int).drop_last() =~= v@.take(end - 1));
        end = end - 1;
    }
    proof {
        if end > 0 {
            assert(v@.take(end as int).last() == v@[end - 1]);
        }
        assert(trimmed_len(v@.take(end as int)) == end);
        lemma_trimmed_len_bound(v@);
    }
    if end == 0 {
        return None;
    }
    let mut start: usize = end;
    while start > 0 && !is_space_char(v[start - 1])
        invariant
            v@ == line@,
            start <= end <= v.len(),
            token_start(v@, end as nat) == token_start(v@, start as nat),
        decreases start,
    {
        start = start - 1;
    }
    Some(line.substring_char(start, end))
}

/// Reads `token` as a port number, as std's `u16` parser does: an optional
/// `+`, then one or more decimal digits whose value fits in 16 bits.
pub fn parse_port(token: &str) -> (r: Option<u16>)
    ensures
        r == port_value(token@),
{
    let v = chars_of(token);
    let start: usize = if v.len() > 0 && v[0] == '+' {
        1
    } else {
        0
    };
    let ghost d = unsigned_part(v@);
    assert(d =~= v@.subrange(start as int, v.len() as int));
    if start == v.len() {
        return None;
    }
    let mut value: u32 = 0;
    let mut i: usize = start;
    while i < v.len()
        invariant
            v@ == token@,
            d == unsigned_part(v@),
            d =~= v@.subrange(start as int, v.len() as int),
            start <= i <= v.len(),
            value <= u16::MAX,
            value == decimal_value(d.take(i - start)),
            forall|k: int| 0 <= k < i - start ==> is_digit(#[trigger] d[k]),
        decreases v.len() - i,
    {
        let c = v[i];
        let u = c as u32;
        if u < 0x30 || u > 0x39 {
            assert(!is_digit(d[i - start]));
            return None;
        }
        assert(d.take(i - start + 1).drop_last() =~= d.take(i - start));
        assert(d.take(i - start + 1).last() == c);
        value = value * 10 + (u - 0x30);
        if value > 0xffff {
            proof {
                lemma_prefix_value_le(d, i - start + 1);
            }
            return None;
        }
        i = i + 1;
    }
    assert(d.take(i - start) =~= d);
    Some(value as u16)
}

/// What one line of the worker's output means for the handshake.
#[derive(PartialEq, Eq, Structural, Clone, Copy, Debug)]
pub enum LineVerdict {
    /// The line does not announce readiness.
    Unrelated,
    /// The line announces readiness; it carries the port if its last token
    /// reads as one.
    Ready(Option<u16>),
}

/// The port that a line gives by its last token, if any.
pub open spec fn port_in_line(line: Seq<char>) -> Option<u16> {
    match last_token_of(line) {
        Some(t) => port_value(t),
        None => None,
    }
}

/// The verdict on one line.
pub open spec fn verdict_of(line: Seq<char>) -> LineVerdict {
    if has_marker(line) {
        LineVerdict::Ready(port_in_line(line))
    } else {
        LineVerdict::Unrelated
    }
}

/// Judges one line of the worker's standard output.
pub fn scan_line(line: &str) -> (r: LineVerdict)
    ensures
        r == verdict_of(line@),
{
    if !contains_marker(line) {
        return LineVerdict::Unrelated;
    }
    match last_token(line) {
        Some(t) => LineVerdict::Ready(parse_port(t)),
        None => LineVerdict::Ready(None),
    }
}

/// Where the handshake stands.
#[derive(PartialEq, Eq, Structural, Clone, Copy, Debug)]
pub enum ScanState {
    /// No readiness line seen yet: the next line is to be read.
    Scanning,
    /// A readiness line was seen, with the port it gave if any; nothing more
    /// is read.
    Ready(Option<u16>),
}

/// The state after one more line: a readiness line ends the scan, and once
/// ended the scan ignores every line.
pub open spec fn step(state: ScanState, line: Seq<char>) -> ScanState {
    match state {
        ScanState::Scanning => match verdict_of(line) {
            LineVerdict::Unrelated => ScanState::Scanning,
            LineVerdict::Ready(p) => ScanState::Ready(p),
        },
        ScanState::Ready(p) => ScanState::Ready(p),
    }
}

/// The outcome of scanning `lines` in order until the first readiness line.
pub open spec fn scan_of(lines: Seq<Seq<char>>) -> ScanState
    decreases lines.len(),
{
    if lines.len() == 0 {
        ScanState::Scanning
    } else {
        match verdict_of(lines[0]) {
            LineVerdict::Ready(p) => ScanState::Ready(p),
            LineVerdict::Unrelated => scan_of(lines.drop_first()),
        }
    }
}

/// How many lines that scan reads: up to and including the first readiness
/// line, or all of them.
pub open spec fn lines_read_of(lines: Seq<Seq<char>>) -> nat
    decreases lines.len(),
{
    if lines.len() == 0 {
        0
    } else {
        match verdict_of(lines[0]) {
            LineVerdict::Ready(_) => 1,
            LineVerdict::Unrelated => 1 + lines_read_of(lines.drop_first()),
        }
    }
}

/// The port a scan discovered: none while scanning, or where the readiness
/// line gave none.
pub open spec fn discovered_port(state: ScanState) -> Option<u16> {
    match state {
        ScanState::Ready(p) => p,
        ScanState::Scanning => None,
    }
}

/// The character sequences of a list of lines.
pub open spec fn views(lines: Seq<String>) -> Seq<Seq<char>> {
    lines.map_values(|l: String| l@)
}

/// Feeding lines one at a time agrees with scanning them all at once: the
/// outcome for `lines` followed by `line` is one `step` from the outcome for
/// `lines`, and while scanning goes on every line has been read.
pub proof fn lemma_scan_push(lines: Seq<Seq<char>>, line: Seq<char>)
    ensures
        scan_of(lines.push(line)) == step(scan_of(lines), line),
        scan_of(lines) is Scanning ==> lines_read_of(lines) == lines.len(),
        scan_of(lines) is Scanning ==> lines_read_of(lines.push(line)) == lines.len() + 1,
    decreases lines.len(),
{
    let longer = lines.push(line);
    if lines.len() > 0 {
        assert(longer[0] == lines[0]);
        assert(longer.drop_first() =~= lines.drop_first().push(line));
        lemma_scan_push(lines.drop_first(), line);
    } else {
        assert(longer[0] == line);
        assert(longer.drop_first() =~= Seq::<Seq<char>>::empty());
        assert(scan_of(longer.drop_first()) == ScanState::Scanning);
        assert(lines_read_of(longer.drop_first()) == 0);
    }
}

/// Once a readiness line has been seen, later lines change nothing and are
/// not read.
pub proof fn lemma_scan_stops(lines: Seq<Seq<char>>, rest: Seq<Seq<char>>)
    requires
        scan_of(lines) is Ready,
    ensures
        scan_of(lines + rest) == scan_of(lines),
        lines_read_of(lines + rest) == lines_read_of(lines),
        lines_read_of(lines) <= lines.len(),
    decreases lines.len(),
{
    assert((lines + rest)[0] == lines[0]);
    if verdict_of(lines[0]) is Unrelated {
        assert((lines + rest).drop_first() =~= lines.drop_first() + rest);
        lemma_scan_stops(lines.drop_first(), rest);
    }
}

/// Output in which no line announces readiness is read to its end, and
/// discovers nothing, so that the default port is published.
pub proof fn lemma_silent_output(lines: Seq<Seq<char>>)
    requires
        forall|i: int| 0 <= i < lines.len() ==> !has_marker(#[trigger] lines[i]),
    ensures
        scan_of(lines) == ScanState::Scanning,
        lines_read_of(lines) == lines.len(),
        discovered_port(scan_of(lines)) is None,
        effective_port_of(discovered_port(scan_of(lines))) == DEFAULT_PORT,
    decreases lines.len(),
{
    if lines.len() > 0 {
        assert(!has_marker(lines[0]));
        assert forall|i: int| 0 <= i < lines.drop_first().len() implies !has_marker(
            #[trigger] lines.drop_first()[i],
        ) by {
            assert(lines.drop_first()[i] == lines[i + 1]);
        }
        lemma_silent_output(lines.drop_first());
    }
}

/// A readiness line whose last token is no port ends the scan all the same:
/// nothing is discovered, and no line after it is read.
pub proof fn lemma_malformed_port_stops(
    earlier: Seq<Seq<char>>,
    line: Seq<char>,
    rest: Seq<Seq<char>>,
)
    requires
        forall|i: int| 0 <= i < earlier.len() ==> !has_marker(#[trigger] earlier[i]),
        has_marker(line),
        port_in_line(line) is None,
    ensures
        scan_of(earlier.push(line) + rest) == ScanState::Ready(None),
        discovered_port(scan_of(earlier.push(line) + rest)) is None,
        lines_read_of(earlier.push(line) + rest) == earlier.len() + 1,
{
    lemma_silent_output(earlier);
    lemma_scan_push(earlier, line);
    lemma_scan_stops(earlier.push(line), rest);
}

proof fn lemma_token_run(s: Seq<char>, start: nat, end: nat)
    requires
        0 < start <= end <= s.len(),
        is_space(s[start - 1]),
        forall|k: int| start <= k < end ==> !is_space(#[trigger] s[k]),
    ensures
        token_start(s, end) == start,
    decreases end,
{
    if end > start {
        lemma_token_run(s, start, (end - 1) as nat);
    }
}

/// A line of any text, a space, the marker, a space and a port in decimal.
pub open spec fn readiness_line(prefix: Seq<char>, port: u16) -> Seq<char> {
    prefix + seq![' '] + MARKER@ + seq![' '] + decimal_of(port as nat)
}

/// A readiness line that ends in a port announces exactly that port, and a
/// scan that reaches it through unrelated lines discovers exactly that port.
pub proof fn lemma_readiness_line_gives_port(
    prefix: Seq<char>,
    port: u16,
    earlier: Seq<Seq<char>>,
)
    requires
        forall|i: int| 0 <= i < earlier.len() ==> !has_marker(#[trigger] earlier[i]),
    ensures
        verdict_of(readiness_line(prefix, port)) == LineVerdict::Ready(Some(port)),
        scan_of(earlier.push(readiness_line(prefix, port))) == ScanState::Ready(Some(port)),
        discovered_port(scan_of(earlier.push(readiness_line(prefix, port)))) == Some(port),
{
    let line = readiness_line(prefix, port);
    let digits = decimal_of(port as nat);
    let head = prefix + seq![' '] + MARKER@ + seq![' '];
    assert(line =~= head + digits);
    let at: int = prefix.len() as int + 1;
    assert(line.subrange(at, at + MARKER@.len()) =~= MARKER@);
    assert(has_marker(line));
    lemma_decimal_value(port as nat);
    assert forall|k: int| head.len() <= k < line.len() implies !is_space(#[trigger] line[k]) by {
        assert(line[k] == digits[k - head.len()]);
    }
    assert(!is_space(line.last()));
    assert(trimmed_len(line) == line.len());
    assert(line[head.len() - 1] == ' ');
    lemma_token_run(line, head.len(), line.len());
    assert(line.subrange(head.len() as int, line.len() as int) =~= digits);
    lemma_port_round_trip(port);
    lemma_silent_output(earlier);
    lemma_scan_push(earlier, line);
}

/// The readiness handshake read line by line, as the worker's output comes.
pub struct Handshake {
    state: ScanState,
}

impl View for Handshake {
    type V = ScanState;

    closed spec fn view(&self) -> ScanState {
        self.state
    }
}

impl Handshake {
    /// A handshake that has read nothing.
    pub fn new() -> (r: Handshake)
        ensures
            r@ == ScanState::Scanning,
    {
        Handshake { state: ScanState::Scanning }
    }

    /// Where the handshake stands.
    pub fn state(&self) -> (r: ScanState)
        ensures
            r == self@,
    {
        self.state
    }

    /// Whether a readiness line has been seen, so that no more is to be read.
    pub fn is_done(&self) -> (r: bool)
        ensures
            r == (self@ is Ready),
    {
        match self.state {
            ScanState::Ready(_) => true,
            ScanState::Scanning => false,
        }
    }

    /// Takes the next line of output; returns whether another line is wanted.
    pub fn feed(&mut self, line: &str) -> (more: bool)
        ensures
            final(self)@ == step(old(self)@, line@),
            more == (final(self)@ is Scanning),
    {
        match self.state {
            ScanState::Ready(_) => false,
            ScanState::Scanning => match scan_line(line) {
                LineVerdict::Unrelated => true,
                LineVerdict::Ready(p) => {
                    self.state = ScanState::Ready(p);
                    false
                },
            },
        }
    }

    /// The port discovered so far. When the output has ended this is the
    /// outcome of the handshake: none if no readiness line came.
    pub fn port(&self) -> (r: Option<u16>)
        ensures
            r == discovered_port(self@),
    {
        match self.state {
            ScanState::Ready(p) => p,
            ScanState::Scanning => None,
        }
    }
}

/// The outcome of a handshake over a complete transcript of output.
#[derive(PartialEq, Eq, Structural, Clone, Copy, Debug)]
pub struct Discovery {
    /// The port discovered, if any.
    pub port: Option<u16>,
    /// How many lines were read before the scan stopped.
    pub lines_read: usize,
}

/// Runs the handshake over `lines`, the worker's standard output up to the
/// point where it closed: reads them in order up to the first readiness line.
pub fn discover_port(lines: &Vec<String>) -> (r: Discovery)
    ensures
        r.port == discovered_port(scan_of(views(lines@))),
        r.lines_read == lines_read_of(views(lines@)),
{
    let ghost all = views(lines@);
    let mut h = Handshake::new();
    let mut i: usize = 0;
    while i < lines.len()
        invariant
            all == views(lines@),
            i <= lines.len(),
            h@ == scan_of(all.take(i as int)),
            h@ is Scanning,
            lines_read_of(all.take(i as int)) == i,
        decreases lines.len() - i,
    {
        proof {
            assert(all.take(i + 1) =~= all.take(i as int).push(lines@[i as int]@));
            lemma_scan_push(all.take(i as int), lines@[i as int]@);
        }
        let more = h.feed(lines[i].as_str());
        i = i + 1;
        if !more {
            proof {
                lemma_scan_stops(all.take(i as int), all.skip(i as int));
                assert(all.take(i as int) + all.skip(i as int) =~= all);
            }
            return Discovery { port: h.port(), lines_read: i };
        }
    }
    assert(all.take(i as int) =~= all);
    Discovery { port: h.port(), lines_read: i }
}

} // verus!
