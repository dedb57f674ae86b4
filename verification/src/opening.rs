//! Opening-book lookup: an immutable mapping from position keys of
//! shallow positions to their exact solved scores.
//!
//! The mapping is held in a hash map keyed by the 64-bit position key,
//! using fnv's Fowler-Noll-Vo hasher, which is fast for small integer keys.
//! The map is built once, either entry by entry or by parsing the
//! line-oriented textual dataset (`from_text`), and read-only afterwards.
use vstd::prelude::*;

use crate::board::{spec_replay, Board};

verus! {

/// fnv's hasher state.  Only carried as a hash-map type parameter here.
#[verifier::external_type_specification]
#[verifier::external_body]
pub struct ExFnvHasher(fnv::FnvHasher);

/// std's zero-sized builder that hands out `H::default()` hashers;
/// `fnv::FnvBuildHasher` abbreviates `BuildHasherDefault<FnvHasher>`.
#[verifier::external_type_specification]
#[verifier::external_body]
#[verifier::reject_recursive_types(H)]
pub struct ExBuildHasherDefault<H>(core::hash::BuildHasherDefault<H>);

/// A malformed line in the textual book dataset (bad move string, bad or
/// out-of-range score, or a missing field).  Fatal at load time.
#[derive(Clone, Copy, PartialEq, Eq, Structural, Debug)]
pub struct BookError;

pub struct Lookup {
    table: std::collections::HashMap<u64, i8, core::hash::BuildHasherDefault<fnv::FnvHasher>>,
}

/// Relies on `HashMap::insert` (with fnv's deterministic `FnvHasher`, a
/// well-behaved hasher for `u64` keys): the map afterwards holds `score`
/// under `key` and is otherwise unchanged.
#[verifier::external_body]
fn book_insert(
    m: &mut std::collections::HashMap<u64, i8, core::hash::BuildHasherDefault<fnv::FnvHasher>>,
    key: u64,
    score: i8,
)
    ensures
        final(m)@ == old(m)@.insert(key, score),
{
    m.insert(key, score);
}

/// Relies on `HashMap::get` (with fnv's deterministic `FnvHasher`): the
/// result is the value stored under `key`, or `None` when there is none.
#[verifier::external_body]
fn book_get(
    m: &std::collections::HashMap<u64, i8, core::hash::BuildHasherDefault<fnv::FnvHasher>>,
    key: u64,
) -> (r: Option<i8>)
    ensures
        r == if m@.contains_key(key) {
            Some(m@[key])
        } else {
            None::<i8>
        },
{
    m.get(&key).copied()
}

/// Whitespace that separates the two fields of a dataset line.
pub open spec fn is_line_ws(c: char) -> bool {
    c == ' ' || c == '\t' || c == '\r'
}

/// Whitespace that may trail the dataset as a whole.
pub open spec fn is_trim_ws(c: char) -> bool {
    is_line_ws(c) || c == '\n'
}

/// The text with all trailing whitespace removed.
pub open spec fn spec_trim_end(s: Seq<char>) -> Seq<char>
    decreases s.len(),
{
    if s.len() > 0 && is_trim_ws(s.last()) {
        spec_trim_end(s.drop_last())
    } else {
        s
    }
}

/// Index of the first newline of `s`, or -1 when there is none.
pub open spec fn find_nl(s: Seq<char>) -> int
    decreases s.len(),
{
    if s.len() == 0 {
        -1
    } else if s[0] == '\n' {
        0
    } else {
        let r = find_nl(s.drop_first());
        if r < 0 {
            -1
        } else {
            r + 1
        }
    }
}

/// `s` without its leading field-separating whitespace.
pub open spec fn spec_skip_ws(s: Seq<char>) -> Seq<char>
    decreases s.len(),
{
    if s.len() > 0 && is_line_ws(s[0]) {
        spec_skip_ws(s.drop_first())
    } else {
        s
    }
}

/// Length of the leading whitespace-free field of `s`.
pub open spec fn spec_token_len(s: Seq<char>) -> int
    decreases s.len(),
{
    if s.len() > 0 && !is_line_ws(s[0]) {
        1 + spec_token_len(s.drop_first())
    } else {
        0
    }
}

/// A decimal digit.
pub open spec fn is_digit(c: char) -> bool {
    48 <= c as u32 && c as u32 <= 57
}

pub open spec fn all_digits(s: Seq<char>) -> bool {
    forall|i: int| 0 <= i < s.len() ==> is_digit(#[trigger] s[i])
}

/// The value of a digit string, most significant first.
pub open spec fn digits_val(s: Seq<char>) -> int
    decreases s.len(),
{
    if s.len() == 0 {
        0
    } else {
        digits_val(s.drop_last()) * 10 + (s.last() as u32 - 48)
    }
}

/// A signed decimal integer: an optional `+` or `-` sign followed by at
/// least one digit, as `i8::from_str` accepts it (ignoring its range).
pub open spec fn spec_parse_score(s: Seq<char>) -> Option<int> {
    if s.len() > 0 && (s[0] == '-' || s[0] == '+') {
        if s.len() > 1 && all_digits(s.skip(1)) {
            if s[0] == '-' {
                Some(-digits_val(s.skip(1)))
            } else {
                Some(digits_val(s.skip(1)))
            }
        } else {
            None
        }
    } else if s.len() > 0 && all_digits(s) {
        Some(digits_val(s))
    } else {
        None
    }
}

/// One dataset line: a move string and a score, separated by whitespace
/// (anything after the second field is ignored, as a whitespace-splitting
/// reader would).  The entry maps the replayed position's key to the
/// score; the line is malformed when either field is missing, the moves do
/// not replay, or the score does not fit the stored score type.
pub open spec fn spec_parse_entry(line: Seq<char>) -> Option<(u64, i8)> {
    let r1 = spec_skip_ws(line);
    let n1 = spec_token_len(r1);
    let tok1 = r1.take(n1);
    let r2 = spec_skip_ws(r1.skip(n1));
    let n2 = spec_token_len(r2);
    let tok2 = r2.take(n2);
    if n1 <= 0 || n2 <= 0 {
        None
    } else {
        match spec_replay(Board::empty(), tok1) {
            Some(b) => match spec_parse_score(tok2) {
                Some(v) => if -128 <= v && v <= 127 {
                    Some((b.key_spec(), v as i8))
                } else {
                    None
                },
                None => None,
            },
            None => None,
        }
    }
}

/// The mapping described by a newline-separated list of lines, later lines
/// overriding earlier ones on the same key; `None` as soon as any line is
/// malformed.
pub open spec fn spec_entries(s: Seq<char>) -> Option<Map<u64, i8>>
    decreases s.len(),
    via spec_entries_decreases
{
    let i = find_nl(s);
    if i < 0 {
        match spec_parse_entry(s) {
            Some(e) => Some(Map::<u64, i8>::empty().insert(e.0, e.1)),
            None => None,
        }
    } else {
        match spec_parse_entry(s.take(i)) {
            Some(e) => match spec_entries(s.skip(i + 1)) {
                Some(m) => Some(Map::<u64, i8>::empty().insert(e.0, e.1).union_prefer_right(m)),
                None => None,
            },
            None => None,
        }
    }
}

/// A newline is found inside the string, so the recursion of
/// `spec_entries` steps to a strictly shorter suffix.
#[via_fn]
proof fn spec_entries_decreases(s: Seq<char>) {
    lemma_find_nl_bound(s);
}

/// The first-newline index is below the length.
proof fn lemma_find_nl_bound(s: Seq<char>)
    ensures
        find_nl(s) < s.len(),
    decreases s.len(),
{
    if s.len() > 0 && s[0] != '\n' {
        lemma_find_nl_bound(s.drop_first());
    }
}

/// What a dataset text denotes: its lines after trailing whitespace is
/// dropped, each line one entry.  An empty dataset is malformed.
pub open spec fn spec_book(text: Seq<char>) -> Option<Map<u64, i8>> {
    spec_entries(spec_trim_end(text))
}

/// If the last `len - t` characters are trailing whitespace and the one
/// before them is not, trimming keeps exactly the first `t`.
proof fn lemma_trim_end_index(s: Seq<char>, t: int)
    requires
        0 <= t <= s.len(),
        forall|k: int| t <= k < s.len() ==> is_trim_ws(#[trigger] s[k]),
        t > 0 ==> !is_trim_ws(s[t - 1]),
    ensures
        spec_trim_end(s) == s.take(t),
    decreases s.len(),
{
    if s.len() > t {
        lemma_trim_end_index(s.drop_last(), t);
        assert(s.drop_last().take(t) =~= s.take(t));
    } else {
        assert(s.take(t) =~= s);
    }
}

/// If the first `m` characters are not newlines and the next one is (or
/// the string ends), the first newline sits at `m` (or nowhere).
proof fn lemma_find_nl_index(s: Seq<char>, m: int)
    requires
        0 <= m <= s.len(),
        forall|k: int| 0 <= k < m ==> (#[trigger] s[k]) != '\n',
        m < s.len() ==> s[m] == '\n',
    ensures
        m == s.len() ==> find_nl(s) == -1,
        m < s.len() ==> find_nl(s) == m,
    decreases s.len(),
{
    if s.len() > 0 && m > 0 {
        lemma_find_nl_index(s.drop_first(), m - 1);
    }
}

/// If the first `m` characters are field whitespace and the next is not
/// (or the string ends), skipping whitespace drops exactly `m`.
proof fn lemma_skip_ws_index(s: Seq<char>, m: int)
    requires
        0 <= m <= s.len(),
        forall|k: int| 0 <= k < m ==> is_line_ws(#[trigger] s[k]),
        m < s.len() ==> !is_line_ws(s[m]),
    ensures
        spec_skip_ws(s) == s.skip(m),
    decreases s.len(),
{
    if m > 0 {
        lemma_skip_ws_index(s.drop_first(), m - 1);
        assert(s.drop_first().skip(m - 1) =~= s.skip(m));
    } else {
        assert(s.skip(0) =~= s);
    }
}

/// If the first `m` characters are not whitespace and the next one is (or
/// the string ends), the leading field is exactly `m` long.
proof fn lemma_token_len_index(s: Seq<char>, m: int)
    requires
        0 <= m <= s.len(),
        forall|k: int| 0 <= k < m ==> !is_line_ws(#[trigger] s[k]),
        m < s.len() ==> is_line_ws(s[m]),
    ensures
        spec_token_len(s) == m,
    decreases s.len(),
{
    if m > 0 {
        lemma_token_len_index(s.drop_first(), m - 1);
    }
}

/// A digit string's value is at least its every prefix's value, and both
/// are nonnegative.
proof fn lemma_digits_val_monotone(s: Seq<char>, k: int)
    requires
        0 <= k <= s.len(),
        all_digits(s),
    ensures
        0 <= digits_val(s.take(k)) <= digits_val(s),
    decreases s.len() - k,
{
    if k == s.len() {
        assert(s.take(k) =~= s);
        lemma_digits_val_nonneg(s);
    } else {
        lemma_digits_val_monotone(s, k + 1);
        assert(s.take(k + 1).drop_last() =~= s.take(k));
        lemma_digits_val_nonneg(s.take(k));
    }
}

proof fn lemma_digits_val_nonneg(s: Seq<char>)
    requires
        all_digits(s),
    ensures
        digits_val(s) >= 0,
    decreases s.len(),
{
    if s.len() > 0 {
        assert(all_digits(s.drop_last()));
        lemma_digits_val_nonneg(s.drop_last());
    }
}

/// First index in `[from, to)` holding a newline, or `to`.
fn scan_nl(text: &str, from: usize, to: usize) -> (j: usize)
    requires
        from <= to <= text@.len(),
    ensures
        from <= j <= to,
        forall|k: int| from <= k < j ==> (#[trigger] text@[k]) != '\n',
        j < to ==> text@[j as int] == '\n',
{
    let mut j = from;
    while j < to
        invariant
            from <= j <= to <= text@.len(),
            forall|k: int| from <= k < j ==> (#[trigger] text@[k]) != '\n',
        decreases to - j,
    {
        if text.get_char(j) == '\n' {
            return j;
        }
        j = j + 1;
    }
    j
}

/// First index in `[from, to)` not holding field whitespace, or `to`.
fn scan_ws(text: &str, from: usize, to: usize) -> (j: usize)
    requires
        from <= to <= text@.len(),
    ensures
        from <= j <= to,
        forall|k: int| from <= k < j ==> is_line_ws(#[trigger] text@[k]),
        j < to ==> !is_line_ws(text@[j as int]),
{
    let mut j = from;
    while j < to
        invariant
            from <= j <= to <= text@.len(),
            forall|k: int| from <= k < j ==> is_line_ws(#[trigger] text@[k]),
        decreases to - j,
    {
        let c = text.get_char(j);
        if !(c == ' ' || c == '\t' || c == '\r') {
            return j;
        }
        j = j + 1;
    }
    j
}

/// First index in `[from, to)` holding field whitespace, or `to`.
fn scan_token(text: &str, from: usize, to: usize) -> (j: usize)
    requires
        from <= to <= text@.len(),
    ensures
        from <= j <= to,
        forall|k: int| from <= k < j ==> !is_line_ws(#[trigger] text@[k]),
        j < to ==> is_line_ws(text@[j as int]),
{
    let mut j = from;
    while j < to
        invariant
            from <= j <= to <= text@.len(),
            forall|k: int| from <= k < j ==> !is_line_ws(#[trigger] text@[k]),
        decreases to - j,
    {
        let c = text.get_char(j);
        if c == ' ' || c == '\t' || c == '\r' {
            return j;
        }
        j = j + 1;
    }
    j
}

/// Replay the move string at `text[a..b]` from the empty board, rejecting
/// any character that is not an open 1-indexed column digit.
fn replay_range(text: &str, a: usize, b: usize) -> (r: Result<Board, BookError>)
    requires
        a <= b <= text@.len(),
    ensures
        (r is Ok) <==> spec_replay(Board::empty(), text@.subrange(a as int, b as int)).is_some(),
        r is Ok ==> Some(r.unwrap()) == spec_replay(
            Board::empty(),
            text@.subrange(a as int, b as int),
        ) && r.unwrap().wf(),
{
    let ghost tok = text@.subrange(a as int, b as int);
    let mut board = Board::new();
    assert(tok.skip(0) =~= tok);
    let mut i = a;
    while i < b
        invariant
            a <= i <= b <= text@.len(),
            tok == text@.subrange(a as int, b as int),
            board.wf(),
            spec_replay(Board::empty(), tok) == spec_replay(board, tok.skip(i - a)),
        decreases b - i,
    {
        let c = text.get_char(i);
        assert(tok.skip(i - a)[0] == c);
        let d = c as u32;
        if !(49 <= d && d < 56) {
            return Err(BookError);
        }
        let col = (d - 49) as u8;
        if board.all & ((0x20 as u64) << ((7 * col) as u64)) != 0 {
            return Err(BookError);
        }
        board.make_move(col);
        assert(tok.skip(i - a).drop_first() =~= tok.skip(i + 1 - a));
        i = i + 1;
    }
    assert(tok.skip(b - a) =~= Seq::<char>::empty());
    Ok(board)
}

/// Parse the signed decimal score at `text[a..b]`, rejecting anything
/// `i8::from_str` would reject: a missing digit, a stray character, or a
/// value outside `i8`.
fn parse_score_range(text: &str, a: usize, b: usize) -> (r: Result<i8, BookError>)
    requires
        a <= b <= text@.len(),
    ensures
        ({
            let v = spec_parse_score(text@.subrange(a as int, b as int));
            &&& (r is Ok) <==> (v is Some && -128 <= v.unwrap() <= 127)
            &&& r is Ok ==> r.unwrap() == v.unwrap()
        }),
{
    let ghost tok = text@.subrange(a as int, b as int);
    if a == b {
        return Err(BookError);
    }
    let c0 = text.get_char(a);
    assert(tok[0] == c0);
    let neg = c0 == '-';
    let ds = if c0 == '-' || c0 == '+' {
        a + 1
    } else {
        a
    };
    let ghost digits = tok.skip(ds - a);
    proof {
        if !(c0 == '-' || c0 == '+') {
            assert(tok.skip(0) =~= tok);
        }
    }
    if ds == b {
        return Err(BookError);
    }
    let mut acc: u32 = 0;
    let mut i = ds;
    while i < b
        invariant
            a <= ds <= i <= b <= text@.len(),
            ds - a <= 1,
            tok == text@.subrange(a as int, b as int),
            tok.len() == b - a,
            neg == (tok[0] == '-'),
            ds == a + 1 <==> (tok[0] == '-' || tok[0] == '+'),
            ds == a ==> digits == tok,
            digits == tok.skip(ds - a),
            digits.len() == b - ds,
            all_digits(digits.take(i - ds)),
            acc == digits_val(digits.take(i - ds)),
            acc <= 1000,
        decreases b - i,
    {
        let c = text.get_char(i);
        assert(digits[i - ds] == c);
        let d = c as u32;
        if !(48 <= d && d <= 57) {
            return Err(BookError);
        }
        assert(digits.take(i + 1 - ds).drop_last() =~= digits.take(i - ds));
        acc = acc * 10 + (d - 48);
        if acc > 1000 {
            // Whatever follows, the value cannot fit the stored score
            // type any more.
            proof {
                if all_digits(digits) {
                    lemma_digits_val_monotone(digits, i + 1 - ds);
                    assert(digits.take(digits.len() as int) =~= digits);
                }
            }
            return Err(BookError);
        }
        i = i + 1;
    }
    assert(digits.take(b - ds) =~= digits);
    if neg {
        if acc > 128 {
            return Err(BookError);
        }
        Ok((-(acc as i16)) as i8)
    } else {
        if acc > 127 {
            return Err(BookError);
        }
        Ok(acc as i8)
    }
}

/// Parse the dataset line at `text[a..b]` into a key/score entry.
fn parse_entry(text: &str, a: usize, b: usize) -> (r: Result<(u64, i8), BookError>)
    requires
        a <= b <= text@.len(),
    ensures
        ({
            let e = spec_parse_entry(text@.subrange(a as int, b as int));
            &&& (r is Ok) <==> e is Some
            &&& r is Ok ==> r.unwrap() == e.unwrap()
        }),
{
    let ghost line = text@.subrange(a as int, b as int);
    let p1 = scan_ws(text, a, b);
    let p2 = scan_token(text, p1, b);
    let p3 = scan_ws(text, p2, b);
    let p4 = scan_token(text, p3, b);
    proof {
        lemma_skip_ws_index(line, p1 - a);
        let r1 = line.skip(p1 - a);
        lemma_token_len_index(r1, p2 - p1);
        assert(r1.take(p2 - p1) =~= text@.subrange(p1 as int, p2 as int));
        assert(r1.skip(p2 - p1) =~= text@.subrange(p2 as int, b as int));
        lemma_skip_ws_index(text@.subrange(p2 as int, b as int), p3 - p2);
        let r2 = text@.subrange(p2 as int, b as int).skip(p3 - p2);
        assert(r2 =~= text@.subrange(p3 as int, b as int));
        lemma_token_len_index(r2, p4 - p3);
        assert(r2.take(p4 - p3) =~= text@.subrange(p3 as int, p4 as int));
    }
    if p2 == p1 || p4 == p3 {
        return Err(BookError);
    }
    let board = match replay_range(text, p1, p2) {
        Ok(bd) => bd,
        Err(e) => {
            return Err(e);
        },
    };
    let score = match parse_score_range(text, p3, p4) {
        Ok(s) => s,
        Err(e) => {
            return Err(e);
        },
    };
    Ok((board.key(), score))
}

impl Lookup {
    /// The key-to-score mapping this book holds.
    pub closed spec fn view(self) -> Map<u64, i8> {
        self.table@
    }

    /// An empty book: every probe misses.
    pub fn new() -> (lk: Lookup)
        ensures
            lk@ == Map::<u64, i8>::empty(),
    {
        Lookup { table: std::collections::HashMap::default() }
    }

    /// Record `score` for the position reached by `moves`, keyed by that
    /// position's key.  A later entry for the same position overwrites an
    /// earlier one.
    pub fn insert(&mut self, moves: &str, score: i8)
        requires
            spec_replay(Board::empty(), moves@).is_some(),
        ensures
            final(self)@ == old(self)@.insert(
                spec_replay(Board::empty(), moves@).unwrap().key_spec(),
                score,
            ),
    {
        let board = Board::from(moves);
        let key = board.key();
        book_insert(&mut self.table, key, score);
    }

    /// Build the book from the line-oriented textual dataset: each line a
    /// move string and a signed score separated by whitespace, trailing
    /// whitespace ignored.  Any malformed line — including an empty
    /// dataset — is fatal and yields an error, as book data is a build
    /// artefact, not user input.
    pub fn from_text(text: &str) -> (r: Result<Lookup, BookError>)
        ensures
            (r is Ok) <==> spec_book(text@) is Some,
            r is Ok ==> r.unwrap()@ == spec_book(text@).unwrap(),
    {
        let n = text.unicode_len();
        let mut t = n;
        while t > 0
            invariant
                t <= n,
                n == text@.len(),
                forall|k: int| t <= k < n ==> is_trim_ws(#[trigger] text@[k]),
            ensures
                t <= n,
                forall|k: int| t <= k < n ==> is_trim_ws(#[trigger] text@[k]),
                t > 0 ==> !is_trim_ws(text@[t - 1]),
            decreases t,
        {
            let c = text.get_char(t - 1);
            if !(c == ' ' || c == '\t' || c == '\r' || c == '\n') {
                break ;
            }
            t = t - 1;
        }
        proof {
            lemma_trim_end_index(text@, t as int);
        }
        let ghost trimmed = text@.take(t as int);
        if t == 0 {
            proof {
                assert(trimmed =~= Seq::<char>::empty());
            }
            return Err(BookError);
        }
        let mut table: std::collections::HashMap<
            u64,
            i8,
            core::hash::BuildHasherDefault<fnv::FnvHasher>,
        > = std::collections::HashMap::default();
        let mut i: usize = 0;
        proof {
            assert(trimmed.skip(0) =~= trimmed);
            if spec_entries(trimmed) is Some {
                assert(spec_entries(trimmed).unwrap() =~= Map::<u64, i8>::empty(
                ).union_prefer_right(spec_entries(trimmed).unwrap()));
            }
        }
        loop
            invariant
                i <= t <= n,
                n == text@.len(),
                trimmed == text@.take(t as int),
                spec_trim_end(text@) == trimmed,
                (spec_entries(trimmed) is Some) <==> (spec_entries(trimmed.skip(i as int))
                    is Some),
                (spec_entries(trimmed) is Some) ==> spec_entries(trimmed).unwrap()
                    == table@.union_prefer_right(spec_entries(trimmed.skip(i as int)).unwrap()),
            decreases t - i,
        {
            let ghost remaining = trimmed.skip(i as int);
            let j = scan_nl(text, i, t);
            proof {
                assert forall|k: int| 0 <= k < j - i implies (#[trigger] remaining[k]) != '\n' by {
                    assert(remaining[k] == text@[i + k]);
                }
                if j < t {
                    assert(remaining[j - i] == text@[j as int]);
                }
                lemma_find_nl_index(remaining, j - i);
                if j < t {
                    assert(remaining.take(j - i) =~= text@.subrange(i as int, j as int));
                    assert(remaining.skip(j - i + 1) =~= trimmed.skip(j + 1));
                } else {
                    assert(remaining =~= text@.subrange(i as int, j as int));
                }
            }
            match parse_entry(text, i, j) {
                Err(_) => {
                    return Err(BookError);
                },
                Ok((key, score)) => {
                    let ghost before = table@;
                    book_insert(&mut table, key, score);
                    if j >= t {
                        proof {
                            if spec_entries(trimmed) is Some {
                                assert(spec_entries(trimmed).unwrap() =~= table@);
                            }
                        }
                        return Ok(Lookup { table });
                    }
                    proof {
                        let rest = spec_entries(trimmed.skip(j + 1));
                        if spec_entries(trimmed) is Some {
                            assert(spec_entries(trimmed).unwrap() =~= table@.union_prefer_right(
                                rest.unwrap(),
                            ));
                        }
                    }
                },
            }
            i = j + 1;
        }
    }

    /// The solved score recorded for position key `key`, or `None` when
    /// the book does not cover it.
    pub fn get(&self, key: u64) -> (r: Option<i8>)
        ensures
            r == if self@.contains_key(key) {
                Some(self@[key])
            } else {
                None::<i8>
            },
    {
        book_get(&self.table, key)
    }
}

} // verus!
