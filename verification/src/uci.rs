//! The engine's side of the UCI protocol: one line of input becomes one
//! command.
use vstd::prelude::*;

verus! {

/// Depth searched when `go` names none.
pub const DEFAULT_SEARCH_DEPTH: i32 = 8;

/// A command of the protocol.
#[derive(Debug, PartialEq)]
pub enum UCIToken {
    Uci,
    IsReady,
    UciNewGame,
    /// A FEN record (`None` for the initial position) and moves to play from it.
    Position(Option<String>, Vec<String>),
    /// Search to a depth.
    Go(i32),
    Reset,
    Stop,
    Unknown,
}

/// Lines that are not commands.
#[derive(Debug, Clone, Copy, PartialEq, Eq, Structural)]
pub enum UciError {
    /// The line holds no word.
    EmptyLine,
    /// `position` is not followed by `startpos` or `fen`.
    MissingPositionSetup,
    /// What follows the position is not `moves`.
    IncorrectPositionArgument,
    /// `go depth` names no depth.
    MissingDepth,
    /// The depth of `go depth` is not an `i32`.
    InvalidDepth,
}

/// Unicode white space (the `White_Space` property), by code point.
pub open spec fn ws_code(x: u32) -> bool {
    ||| 9 <= x <= 13
    ||| x == 32
    ||| x == 0x85
    ||| x == 0xA0
    ||| x == 0x1680
    ||| 0x2000 <= x <= 0x200A
    ||| x == 0x2028
    ||| x == 0x2029
    ||| x == 0x202F
    ||| x == 0x205F
    ||| x == 0x3000
}

pub open spec fn is_ws(c: char) -> bool {
    ws_code(c as u32)
}

/// Length of the word a text starts with.
pub open spec fn word_len(s: Seq<char>) -> nat
    decreases s.len(),
{
    if s.len() == 0 || is_ws(s[0]) {
        0
    } else {
        1 + word_len(s.drop_first())
    }
}

pub proof fn lemma_word_len_bounds(s: Seq<char>)
    ensures
        word_len(s) <= s.len(),
        s.len() > 0 && !is_ws(s[0]) ==> word_len(s) >= 1,
    decreases s.len(),
{
    if s.len() > 0 && !is_ws(s[0]) {
        lemma_word_len_bounds(s.drop_first());
    }
}

/// The words of a text: its maximal runs of characters other than white space.
pub open spec fn words(s: Seq<char>) -> Seq<Seq<char>>
    decreases s.len(),
{
    if s.len() == 0 {
        seq![]
    } else if is_ws(s[0]) {
        words(s.drop_first())
    } else {
        proof {
            lemma_word_len_bounds(s);
        }
        seq![s.take(word_len(s) as int)] + words(s.skip(word_len(s) as int))
    }
}

/// Words joined by single spaces.
pub open spec fn join_words(ws: Seq<Seq<char>>) -> Seq<char>
    decreases ws.len(),
{
    if ws.len() == 0 {
        seq![]
    } else if ws.len() == 1 {
        ws[0]
    } else {
        join_words(ws.drop_last()) + seq![' '] + ws.last()
    }
}

/// The texts of strings.
pub open spec fn texts(v: Seq<String>) -> Seq<Seq<char>> {
    v.map_values(|t: String| t@)
}

pub open spec fn is_digit(c: char) -> bool {
    48 <= (c as u32) <= 57
}

/// Value of a run of decimal digits.
pub open spec fn digits_value(d: Seq<char>) -> int
    decreases d.len(),
{
    if d.len() == 0 {
        0
    } else {
        digits_value(d.drop_last()) * 10 + ((d.last() as u32) - 48)
    }
}

/// Length of the optional sign in front of a number.
pub open spec fn sign_len(s: Seq<char>) -> int {
    if s.len() > 0 && (s[0] == '-' || s[0] == '+') {
        1
    } else {
        0
    }
}

/// The digits of a number, after its sign.
pub open spec fn digits_part(s: Seq<char>) -> Seq<char> {
    s.skip(sign_len(s))
}

pub open spec fn all_digits(d: Seq<char>) -> bool {
    forall|i: int| 0 <= i < d.len() ==> is_digit(#[trigger] d[i])
}

/// The value a number denotes, by its sign and digits.
pub open spec fn signed_value(s: Seq<char>) -> int {
    if s.len() > 0 && s[0] == '-' {
        -digits_value(digits_part(s))
    } else {
        digits_value(digits_part(s))
    }
}

/// An `i32` in decimal: an optional sign, then at least one digit, with a
/// value in range.
pub open spec fn parse_i32_spec(s: Seq<char>) -> Option<i32> {
    if digits_part(s).len() > 0 && all_digits(digits_part(s)) && i32::MIN <= signed_value(s)
        <= i32::MAX {
        Some(signed_value(s) as i32)
    } else {
        None
    }
}

/// Where the position's setup ends among the words of a `position` line:
/// after `startpos`, or after at most six words of FEN.
pub open spec fn setup_end(w: Seq<Seq<char>>) -> int {
    if w[1] == "startpos"@ {
        2
    } else if w.len() < 8 {
        w.len() as int
    } else {
        8
    }
}

/// What a line with words `w` is, as a command or an error.
pub open spec fn uci_result(w: Seq<Seq<char>>, r: Result<UCIToken, UciError>) -> bool {
    if w.len() == 0 {
        r == Err::<UCIToken, UciError>(UciError::EmptyLine)
    } else if w[0] == "uci"@ {
        r == Ok::<UCIToken, UciError>(UCIToken::Uci)
    } else if w[0] == "isready"@ {
        r == Ok::<UCIToken, UciError>(UCIToken::IsReady)
    } else if w[0] == "ucinewgame"@ {
        r == Ok::<UCIToken, UciError>(UCIToken::UciNewGame)
    } else if w[0] == "position"@ {
        if w.len() < 2 || (w[1] != "startpos"@ && w[1] != "fen"@) {
            r == Err::<UCIToken, UciError>(UciError::MissingPositionSetup)
        } else if setup_end(w) < w.len() && w[setup_end(w)] != "moves"@ {
            r == Err::<UCIToken, UciError>(UciError::IncorrectPositionArgument)
        } else {
            let moves = if setup_end(w) < w.len() {
                w.subrange(setup_end(w) + 1, w.len() as int)
            } else {
                Seq::<Seq<char>>::empty()
            };
            &&& r matches Ok(UCIToken::Position(fen, ms))
            &&& texts(ms@) == moves
            &&& if w[1] == "startpos"@ {
                fen is None
            } else {
                fen matches Some(f) && f@ == join_words(w.subrange(2, setup_end(w)))
            }
        }
    } else if w[0] == "go"@ {
        if w.len() >= 2 && w[1] == "depth"@ {
            if w.len() < 3 {
                r == Err::<UCIToken, UciError>(UciError::MissingDepth)
            } else {
                match parse_i32_spec(w[2]) {
                    Some(d) => r == Ok::<UCIToken, UciError>(UCIToken::Go(d)),
                    None => r == Err::<UCIToken, UciError>(UciError::InvalidDepth),
                }
            }
        } else {
            r == Ok::<UCIToken, UciError>(UCIToken::Go(DEFAULT_SEARCH_DEPTH))
        }
    } else if w[0] == "reset"@ {
        r == Ok::<UCIToken, UciError>(UCIToken::Reset)
    } else if w[0] == "stop"@ {
        r == Ok::<UCIToken, UciError>(UCIToken::Stop)
    } else {
        r == Ok::<UCIToken, UciError>(UCIToken::Unknown)
    }
}

/// The error a line with words `w` gives, if any: the lines on which the
/// engine stops rather than reading a command.
pub open spec fn uci_error(w: Seq<Seq<char>>) -> Option<UciError> {
    if w.len() == 0 {
        Some(UciError::EmptyLine)
    } else if w[0] == "position"@ {
        if w.len() < 2 || (w[1] != "startpos"@ && w[1] != "fen"@) {
            Some(UciError::MissingPositionSetup)
        } else if setup_end(w) < w.len() && w[setup_end(w)] != "moves"@ {
            Some(UciError::IncorrectPositionArgument)
        } else {
            None
        }
    } else if w[0] == "go"@ && w.len() >= 2 && w[1] == "depth"@ {
        if w.len() < 3 {
            Some(UciError::MissingDepth)
        } else if parse_i32_spec(w[2]) is None {
            Some(UciError::InvalidDepth)
        } else {
            None
        }
    } else {
        None
    }
}

/// Whether a character is white space.
pub fn is_whitespace(c: char) -> (r: bool)
    ensures
        r == is_ws(c),
{
    let x = c as u32;
    (9 <= x && x <= 13) || x == 32 || x == 0x85 || x == 0xA0 || x == 0x1680 || (0x2000 <= x && x
        <= 0x200A) || x == 0x2028 || x == 0x2029 || x == 0x202F || x == 0x205F || x == 0x3000
}

proof fn lemma_word_len_exact(s: Seq<char>, k: int)
    requires
        0 <= k <= s.len(),
        forall|j: int| 0 <= j < k ==> !is_ws(#[trigger] s[j]),
        k == s.len() || is_ws(s[k]),
    ensures
        word_len(s) == k,
    decreases k,
{
    if k > 0 {
        assert(!is_ws(s[0]));
        let t = s.drop_first();
        assert forall|j: int| 0 <= j < k - 1 implies !is_ws(#[trigger] t[j]) by {
            assert(t[j] == s[j + 1]);
        }
        if k < s.len() {
            assert(t[k - 1] == s[k]);
        }
        lemma_word_len_exact(t, k - 1);
    }
}

/// Splits a line into its words.
pub fn split_words(line: &str) -> (r: Vec<String>)
    ensures
        texts(r@) == words(line@),
{
    let n = line.unicode_len();
    let mut out: Vec<String> = Vec::new();
    let mut i: usize = 0;
    proof {
        assert(line@.skip(0) == line@);
        assert(texts(out@) == Seq::<Seq<char>>::empty());
    }
    while i < n
        invariant
            n == line@.len(),
            i <= n,
            words(line@) == texts(out@) + words(line@.skip(i as int)),
        decreases n - i,
    {
        let c = line.get_char(i);
        if is_whitespace(c) {
            proof {
                let s = line@.skip(i as int);
                assert(s[0] == c);
                assert(s.drop_first() == line@.skip(i + 1));
            }
            i += 1;
        } else {
            let start = i;
            i += 1;
            while i < n && !is_whitespace(line.get_char(i))
                invariant
                    n == line@.len(),
                    start < i <= n,
                    forall|j: int| start <= j < i ==> !is_ws(#[trigger] line@[j]),
                decreases n - i,
            {
                i += 1;
            }
            let word = line.substring_char(start, i).to_owned();
            proof {
                let s = line@.skip(start as int);
                let k = (i - start) as int;
                assert forall|j: int| 0 <= j < k implies !is_ws(#[trigger] s[j]) by {
                    assert(s[j] == line@[start + j]);
                }
                if i < n {
                    assert(s[k] == line@[i as int]);
                }
                lemma_word_len_exact(s, k);
                assert(s.take(k) == line@.subrange(start as int, i as int));
                assert(s.skip(k) == line@.skip(i as int));
                assert(words(s) == seq![s.take(k)] + words(s.skip(k)));
            }
            let ghost before = out@;
            out.push(word);
            proof {
                assert(texts(out@) == texts(before).push(word@));
            }
        }
    }
    proof {
        assert(line@.skip(n as int) == Seq::<char>::empty());
    }
    out
}

/// Whether two texts are equal.
pub fn same_text(a: &str, b: &str) -> (r: bool)
    ensures
        r == (a@ == b@),
{
    let n = a.unicode_len();
    if n != b.unicode_len() {
        return false;
    }
    let mut i: usize = 0;
    while i < n
        invariant
            n == a@.len(),
            n == b@.len(),
            i <= n,
            forall|j: int| 0 <= j < i ==> a@[j] == b@[j],
        decreases n - i,
    {
        if a.get_char(i) != b.get_char(i) {
            return false;
        }
        i += 1;
    }
    assert(a@ == b@);
    true
}

/// Joins `w[from .. to]` with single spaces.
pub fn join_range(w: &Vec<String>, from: usize, to: usize) -> (r: String)
    requires
        from <= to <= w@.len(),
    ensures
        r@ == join_words(texts(w@).subrange(from as int, to as int)),
{
    let mut res = String::new();
    let mut k = from;
    proof {
        reveal_strlit(" ");
        assert(texts(w@).subrange(from as int, from as int) == Seq::<Seq<char>>::empty());
    }
    while k < to
        invariant
            from <= k <= to <= w@.len(),
            res@ == join_words(texts(w@).subrange(from as int, k as int)),
            " "@ == seq![' '],
        decreases to - k,
    {
        let ghost prev = texts(w@).subrange(from as int, k as int);
        let ghost next = texts(w@).subrange(from as int, k + 1);
        proof {
            assert(next.drop_last() == prev);
            assert(next.last() == w@[k as int]@);
        }
        if k != from {
            res.append(" ");
        }
        res.append(w[k].as_str());
        proof {
            if k == from {
                assert(prev.len() == 0);
                assert(next.len() == 1);
                assert(res@ == next[0]);
            }
        }
        k += 1;
    }
    res
}

proof fn lemma_digits_value_prefix(d: Seq<char>, k: int)
    requires
        0 <= k <= d.len(),
        forall|i: int| 0 <= i < d.len() ==> is_digit(#[trigger] d[i]),
    ensures
        0 <= digits_value(d.take(k)) <= digits_value(d),
    decreases d.len() - k,
{
    if k < d.len() {
        lemma_digits_value_prefix(d, k + 1);
        assert(d.take(k + 1).drop_last() == d.take(k));
        assert(is_digit(d[k]));
    } else {
        assert(d.take(k) == d);
        lemma_digits_value_nonneg(d);
    }
}

proof fn lemma_digits_value_nonneg(d: Seq<char>)
    requires
        forall|i: int| 0 <= i < d.len() ==> is_digit(#[trigger] d[i]),
    ensures
        0 <= digits_value(d),
    decreases d.len(),
{
    if d.len() > 0 {
        assert(is_digit(d[d.len() - 1]));
        lemma_digits_value_nonneg(d.drop_last());
    }
}

/// Parses an `i32` written in decimal, as `str::parse::<i32>` does: an
/// optional sign, then digits only, with the value in range.
pub fn parse_i32(text: &str) -> (r: Option<i32>)
    ensures
        r == parse_i32_spec(text@),
{
    let n = text.unicode_len();
    if n == 0 {
        return None;
    }
    let first = text.get_char(0);
    let signed = first == '-' || first == '+';
    let negative = first == '-';
    let start: usize = if signed {
        1
    } else {
        0
    };
    let ghost body = digits_part(text@);
    if start == n {
        return None;
    }
    let mut acc: i64 = 0;
    let mut i: usize = start;
    while i < n
        invariant
            n == text@.len(),
            start <= i <= n,
            start == 0 || start == 1,
            body == text@.subrange(start as int, n as int),
            n > 0,
            negative == (text@[0] == '-'),
            body == digits_part(text@),
            start == sign_len(text@),
            body.len() > 0,
            forall|j: int| 0 <= j < i - start ==> is_digit(#[trigger] body[j]),
            acc == digits_value(body.take(i - start)),
            0 <= acc <= 2147483648,
        decreases n - i,
    {
        let c = text.get_char(i);
        let code = c as u32;
        if code < 48 || code > 57 {
            proof {
                assert(text@[i as int] == body[i - start]);
                assert(!is_digit(body[i - start]));
                assert(!all_digits(body));
                assert(parse_i32_spec(text@) is None);
            }
            return None;
        }
        proof {
            assert(body.take(i - start + 1).drop_last() == body.take(i - start));
            assert(body.take(i - start + 1).last() == c);
        }
        acc = acc * 10 + (code - 48) as i64;
        if acc > 2147483648 {
            proof {
                let k = (i - start + 1) as int;
                assert(body.take(k).drop_last() == body.take(k - 1));
                if all_digits(body) {
                    lemma_digits_value_prefix(body, k);
                    assert(digits_value(body) > 2147483648);
                }
                assert(parse_i32_spec(text@) is None);
            }
            return None;
        }
        i += 1;
    }
    proof {
        assert(body.take(n - start) == body);
    }
    if negative {
        Some((-acc) as i32)
    } else if acc <= 2147483647 {
        Some(acc as i32)
    } else {
        None
    }
}

/// Reads one line of the protocol.
fn read_command(line: &str) -> (r: Result<UCIToken, UciError>)
    ensures
        uci_result(words(line@), r),
{
    let w = split_words(line);
    let ghost ws = words(line@);
    proof {
        assert(ws.len() == w@.len());
        assert(forall|k: int| 0 <= k < w@.len() ==> #[trigger] ws[k] == w@[k]@);
    }
    if w.len() == 0 {
        return Err(UciError::EmptyLine);
    }
    let command = w[0].as_str();
    if same_text(command, "uci") {
        Ok(UCIToken::Uci)
    } else if same_text(command, "isready") {
        Ok(UCIToken::IsReady)
    } else if same_text(command, "ucinewgame") {
        Ok(UCIToken::UciNewGame)
    } else if same_text(command, "position") {
        if w.len() < 2 {
            return Err(UciError::MissingPositionSetup);
        }
        let setup = w[1].as_str();
        let startpos = same_text(setup, "startpos");
        if !startpos && !same_text(setup, "fen") {
            return Err(UciError::MissingPositionSetup);
        }
        let end: usize = if startpos {
            2
        } else if w.len() < 8 {
            w.len()
        } else {
            8
        };
        let fen = if startpos {
            None
        } else {
            Some(join_range(&w, 2, end))
        };
        proof {
            assert(end == setup_end(ws));
            assert(texts(w@).subrange(2, end as int) == ws.subrange(2, end as int));
        }
        let mut moves: Vec<String> = Vec::new();
        if end < w.len() {
            if !same_text(w[end].as_str(), "moves") {
                return Err(UciError::IncorrectPositionArgument);
            }
            let mut k = end + 1;
            while k < w.len()
                invariant
                    end < k <= w@.len(),
                    texts(moves@) == texts(w@).subrange(end + 1, k as int),
                decreases w@.len() - k,
            {
                let ghost before = moves@;
                moves.push(w[k].clone());
                proof {
                    assert(texts(moves@) == texts(before).push(w@[k as int]@));
                    assert(texts(w@).subrange(end + 1, k + 1) == texts(w@).subrange(
                        end + 1,
                        k as int,
                    ).push(w@[k as int]@));
                }
                k += 1;
            }
            proof {
                assert(texts(moves@) == ws.subrange(end + 1, ws.len() as int));
            }
        } else {
            proof {
                assert(texts(moves@) == Seq::<Seq<char>>::empty());
            }
        }
        Ok(UCIToken::Position(fen, moves))
    } else if same_text(command, "go") {
        if w.len() >= 2 && same_text(w[1].as_str(), "depth") {
            if w.len() < 3 {
                return Err(UciError::MissingDepth);
            }
            match parse_i32(w[2].as_str()) {
                Some(d) => Ok(UCIToken::Go(d)),
                None => Err(UciError::InvalidDepth),
            }
        } else {
            Ok(UCIToken::Go(DEFAULT_SEARCH_DEPTH))
        }
    } else if same_text(command, "reset") {
        Ok(UCIToken::Reset)
    } else if same_text(command, "stop") {
        Ok(UCIToken::Stop)
    } else {
        Ok(UCIToken::Unknown)
    }
}

/// The errors of `uci_result` are those `uci_error` names.
proof fn lemma_uci_error(w: Seq<Seq<char>>, r: Result<UCIToken, UciError>)
    requires
        uci_result(w, r),
    ensures
        r is Err <==> uci_error(w) is Some,
        r matches Err(e) ==> uci_error(w) == Some(e),
{
    reveal_strlit("uci");
    reveal_strlit("isready");
    reveal_strlit("ucinewgame");
    reveal_strlit("position");
    reveal_strlit("go");
    assert("uci"@.len() == 3 && "isready"@.len() == 7 && "ucinewgame"@.len() == 10);
    assert("position"@.len() == 8 && "go"@.len() == 2);
    assert("uci"@ != "position"@ && "uci"@ != "go"@);
    assert("isready"@ != "position"@ && "isready"@ != "go"@);
    assert("ucinewgame"@ != "position"@ && "ucinewgame"@ != "go"@);
    assert("position"@ != "go"@);
}

/// Reads a line as a command, or the error on which the engine stops.
pub fn try_parse_uci(line: &str) -> (r: Result<UCIToken, UciError>)
    ensures
        uci_result(words(line@), r),
        r is Err <==> uci_error(words(line@)) is Some,
        r matches Err(e) ==> uci_error(words(line@)) == Some(e),
{
    let r = read_command(line);
    proof {
        lemma_uci_error(words(line@), r);
    }
    r
}

/// Reads a command from a line on which the engine does not stop: the
/// line's words are a command as `uci_result` says.
pub fn parse_uci(line: &str) -> (r: UCIToken)
    requires
        uci_error(words(line@)) is None,
    ensures
        uci_result(words(line@), Ok(r)),
{
    match try_parse_uci(line) {
        Ok(token) => token,
        Err(e) => {
            assert(uci_error(words(line@)) == Some(e));
            UCIToken::Unknown
        },
    }
}

} // verus!
