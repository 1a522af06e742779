//! The persisted form of a store: a JSON array of record objects.
//!
//! Rendering and parsing are defined as spec functions over character
//! sequences; the executable writer and reader are proved to follow
//! them, and a round-trip law shows that parsing a rendered store
//! yields the store unchanged.

use crate::game::{Game, GameModel};
use crate::rating::Rating;
use crate::text::{all_digits, digit_val, digits_val, is_digit, is_digit_char, is_space, is_space_char, push_char};
use vstd::prelude::*;

verus! {

// ---------------------------------------------------------------- rendering
/// Characters that cannot stand raw inside a JSON string.
pub open spec fn must_escape(c: char) -> bool {
    (c as u32) < 32 || c == '"' || c == '\\'
}

/// The lower-case hexadecimal digit for a value below 16.
pub open spec fn hex_digit(n: int) -> char {
    if n == 0 {
        '0'
    } else if n == 1 {
        '1'
    } else if n == 2 {
        '2'
    } else if n == 3 {
        '3'
    } else if n == 4 {
        '4'
    } else if n == 5 {
        '5'
    } else if n == 6 {
        '6'
    } else if n == 7 {
        '7'
    } else if n == 8 {
        '8'
    } else if n == 9 {
        '9'
    } else if n == 10 {
        'a'
    } else if n == 11 {
        'b'
    } else if n == 12 {
        'c'
    } else if n == 13 {
        'd'
    } else if n == 14 {
        'e'
    } else {
        'f'
    }
}

/// How one character lands in a JSON string: raw, or as a `\u00XX`
/// escape (every character that needs an escape has a code below 256).
pub open spec fn esc_char(c: char) -> Seq<char> {
    if must_escape(c) {
        seq!['\\', 'u', '0', '0', hex_digit((c as u32) as int / 16), hex_digit(
            (c as u32) as int % 16,
        )]
    } else {
        seq![c]
    }
}

/// A text with every character escaped as JSON requires.
pub open spec fn esc(s: Seq<char>) -> Seq<char>
    decreases s.len(),
{
    if s.len() == 0 {
        Seq::empty()
    } else {
        esc_char(s[0]) + esc(s.drop_first())
    }
}

/// A JSON string: quotes around the escaped text.
pub open spec fn quoted(s: Seq<char>) -> Seq<char> {
    seq!['"'] + esc(s) + seq!['"']
}

/// The decimal digits of a non-negative number, most significant
/// first.
pub open spec fn dec_digits(n: int) -> Seq<char>
    decreases n,
{
    if n < 10 {
        seq![hex_digit(n)]
    } else {
        dec_digits(n / 10).push(hex_digit(n % 10))
    }
}

/// The lower-case English word a rating is persisted as.
pub open spec fn rating_word(r: Rating) -> Seq<char> {
    match r {
        Rating::One => seq!['o', 'n', 'e'],
        Rating::Two => seq!['t', 'w', 'o'],
        Rating::Three => seq!['t', 'h', 'r', 'e', 'e'],
        Rating::Four => seq!['f', 'o', 'u', 'r'],
        Rating::Five => seq!['f', 'i', 'v', 'e'],
    }
}

/// The rating a persisted word denotes, if any.
pub open spec fn word_to_rating(w: Seq<char>) -> Option<Rating> {
    if w == rating_word(Rating::One) {
        Some(Rating::One)
    } else if w == rating_word(Rating::Two) {
        Some(Rating::Two)
    } else if w == rating_word(Rating::Three) {
        Some(Rating::Three)
    } else if w == rating_word(Rating::Four) {
        Some(Rating::Four)
    } else if w == rating_word(Rating::Five) {
        Some(Rating::Five)
    } else {
        None
    }
}

pub open spec fn key_name() -> Seq<char> {
    seq!['"', 'n', 'a', 'm', 'e', '"', ':']
}

pub open spec fn key_rating() -> Seq<char> {
    seq!['"', 'r', 'a', 't', 'i', 'n', 'g', '"', ':']
}

pub open spec fn key_times_played() -> Seq<char> {
    seq!['"', 't', 'i', 'm', 'e', 's', '_', 'p', 'l', 'a', 'y', 'e', 'd', '"', ':']
}

pub open spec fn key_last_playthrough() -> Seq<char> {
    seq!['"', 'l', 'a', 's', 't', '_', 'p', 'l', 'a', 'y', 't', 'h', 'r', 'o', 'u', 'g', 'h', '"',
        ':']
}

pub open spec fn key_notes() -> Seq<char> {
    seq!['"', 'n', 'o', 't', 'e', 's', '"', ':']
}

/// One record as a JSON object, fields in their fixed order.
pub open spec fn render_game(g: GameModel) -> Seq<char> {
    seq!['{'] + key_name() + quoted(g.name) + seq![','] + key_rating() + quoted(
        rating_word(g.rating),
    ) + seq![','] + key_times_played() + dec_digits(g.times_played as int) + seq![',']
        + key_last_playthrough() + quoted(g.last_playthrough) + seq![','] + key_notes() + quoted(
        g.notes,
    ) + seq!['}']
}

/// The records as the comma-separated inside of a JSON array.
pub open spec fn render_list_body(gs: Seq<GameModel>) -> Seq<char>
    decreases gs.len(),
{
    if gs.len() == 0 {
        Seq::empty()
    } else if gs.len() == 1 {
        render_game(gs[0])
    } else {
        render_game(gs[0]) + seq![','] + render_list_body(gs.drop_first())
    }
}

/// A whole store as a JSON array.
pub open spec fn render_games(gs: Seq<GameModel>) -> Seq<char> {
    seq!['['] + render_list_body(gs) + seq![']']
}

/// Appending one character extends an escaped text by that character's
/// escape.
pub proof fn lemma_esc_snoc(s: Seq<char>, c: char)
    ensures
        esc(s.push(c)) == esc(s) + esc_char(c),
    decreases s.len(),
{
    if s.len() == 0 {
        assert(s =~= Seq::<char>::empty());
        assert(s.push(c).drop_first() =~= s);
        assert(s.push(c)[0] == c);
        assert(esc(s.push(c)) == esc_char(c) + esc(s));
        assert(esc_char(c) + esc(s) =~= esc(s) + esc_char(c));
    } else {
        assert(s.push(c).drop_first() =~= s.drop_first().push(c));
        lemma_esc_snoc(s.drop_first(), c);
        assert(esc_char(s[0]) + (esc(s.drop_first()) + esc_char(c)) =~= (esc_char(s[0]) + esc(
            s.drop_first(),
        )) + esc_char(c));
    }
}

/// A text with nothing to escape is its own escaped form.
pub proof fn lemma_esc_plain(s: Seq<char>)
    requires
        forall|i: int| 0 <= i < s.len() ==> !must_escape(#[trigger] s[i]),
    ensures
        esc(s) == s,
    decreases s.len(),
{
    if s.len() > 0 {
        lemma_esc_plain(s.drop_first());
        assert(esc_char(s[0]) + s.drop_first() =~= s);
    }
}

/// Appending one record extends a rendered list body by a comma and
/// that record.
pub proof fn lemma_render_list_body_snoc(gs: Seq<GameModel>, g: GameModel)
    ensures
        render_list_body(gs.push(g)) == if gs.len() == 0 {
            render_game(g)
        } else {
            render_list_body(gs) + seq![','] + render_game(g)
        },
    decreases gs.len(),
{
    if gs.len() == 0 {
        assert(gs.push(g)[0] == g);
    } else {
        assert(gs.push(g).drop_first() =~= gs.drop_first().push(g));
        lemma_render_list_body_snoc(gs.drop_first(), g);
        if gs.len() == 1 {
            assert(render_list_body(gs.push(g)) =~= render_list_body(gs) + seq![','] + render_game(
                g,
            ));
        } else {
            assert(render_game(gs[0]) + seq![','] + (render_list_body(gs.drop_first()) + seq![',']
                + render_game(g)) =~= (render_game(gs[0]) + seq![','] + render_list_body(
                gs.drop_first(),
            )) + seq![','] + render_game(g));
        }
    }
}

// ------------------------------------------------------------------ parsing
//
// Each spec parser takes the text still to be read and gives back the
// parsed value and how many characters it consumed.
/// How many blanks the text starts with.
pub open spec fn skip_ws(s: Seq<char>) -> int
    decreases s.len(),
{
    if s.len() > 0 && is_space(s[0]) {
        1 + skip_ws(s.drop_first())
    } else {
        0
    }
}

/// One expected punctuation character, after any blanks.
pub open spec fn tok(s: Seq<char>, c: char) -> Option<int> {
    let w = skip_ws(s);
    if w < s.len() && s[w] == c {
        Some(w + 1)
    } else {
        None
    }
}

/// A hexadecimal digit, either case.
pub open spec fn is_hex(c: char) -> bool {
    48 <= c as u32 <= 57 || 97 <= c as u32 <= 102 || 65 <= c as u32 <= 70
}

/// The value of a hexadecimal digit.
pub open spec fn hex_val(c: char) -> int {
    if 48 <= c as u32 <= 57 {
        c as u32 - 48
    } else if 97 <= c as u32 <= 102 {
        c as u32 - 87
    } else {
        c as u32 - 55
    }
}

/// The character with a given code below 256.
pub open spec fn code_char(n: int) -> char {
    (n as u32) as char
}

/// What one escape stands for, reading just after the backslash: a
/// named escape, or `\u00XX` for a code below 256.
pub open spec fn parse_escape(s: Seq<char>) -> Option<(char, int)> {
    if s.len() == 0 {
        None
    } else if s[0] == '"' {
        Some(('"', 1))
    } else if s[0] == '\\' {
        Some(('\\', 1))
    } else if s[0] == '/' {
        Some(('/', 1))
    } else if s[0] == 'n' {
        Some(('\n', 1))
    } else if s[0] == 't' {
        Some(('\t', 1))
    } else if s[0] == 'r' {
        Some(('\r', 1))
    } else if s[0] == 'b' {
        Some(('\u{8}', 1))
    } else if s[0] == 'f' {
        Some(('\u{c}', 1))
    } else if s[0] == 'u' {
        if s.len() >= 5 && s[1] == '0' && s[2] == '0' && is_hex(s[3]) && is_hex(s[4]) {
            Some((code_char(16 * hex_val(s[3]) + hex_val(s[4])), 5))
        } else {
            None
        }
    } else {
        None
    }
}

/// A string body read until the closing quote, escapes resolved.
pub open spec fn parse_str_body(s: Seq<char>) -> Option<(Seq<char>, int)>
    decreases s.len(),
{
    if s.len() == 0 {
        None
    } else if s[0] == '"' {
        Some((Seq::empty(), 1))
    } else if s[0] == '\\' {
        match parse_escape(s.drop_first()) {
            Some((c, k)) => if 1 <= k && 1 + k <= s.len() {
                match parse_str_body(s.skip(1 + k)) {
                    Some((v, m)) => Some((seq![c] + v, 1 + k + m)),
                    None => None,
                }
            } else {
                None
            },
            None => None,
        }
    } else {
        match parse_str_body(s.drop_first()) {
            Some((v, m)) => Some((seq![s[0]] + v, 1 + m)),
            None => None,
        }
    }
}

/// A JSON string: a quote, the body, the closing quote.
pub open spec fn parse_string(s: Seq<char>) -> Option<(Seq<char>, int)> {
    if s.len() > 0 && s[0] == '"' {
        match parse_str_body(s.drop_first()) {
            Some((v, k)) => Some((v, 1 + k)),
            None => None,
        }
    } else {
        None
    }
}

/// How many decimal digits the text starts with.
pub open spec fn count_digits(s: Seq<char>) -> int
    decreases s.len(),
{
    if s.len() > 0 && is_digit(s[0]) {
        1 + count_digits(s.drop_first())
    } else {
        0
    }
}

/// A counter value: the leading digits, which must fit the counter.
pub open spec fn parse_number(s: Seq<char>) -> Option<(u64, int)> {
    let k = count_digits(s);
    if k >= 1 && digits_val(s.take(k)) <= u64::MAX {
        Some((digits_val(s.take(k)) as u64, k))
    } else {
        None
    }
}

/// A string token: blanks, then a JSON string.
pub open spec fn parse_tok_string(s: Seq<char>) -> Option<(Seq<char>, int)> {
    let w = skip_ws(s);
    match parse_string(s.skip(w)) {
        Some((v, k)) => Some((v, w + k)),
        None => None,
    }
}

/// A number token: blanks, then a counter value.
pub open spec fn parse_tok_number(s: Seq<char>) -> Option<(u64, int)> {
    let w = skip_ws(s);
    match parse_number(s.skip(w)) {
        Some((v, k)) => Some((v, w + k)),
        None => None,
    }
}

/// An object key: the given word as a JSON string, then a colon.
pub open spec fn parse_key(s: Seq<char>, key: Seq<char>) -> Option<int> {
    match parse_tok_string(s) {
        Some((v, k)) => if v == key {
            match tok(s.skip(k), ':') {
                Some(m) => Some(k + m),
                None => None,
            }
        } else {
            None
        },
        None => None,
    }
}

/// A `"key": "string"` member.
pub open spec fn parse_str_member(s: Seq<char>, key: Seq<char>) -> Option<(Seq<char>, int)> {
    match parse_key(s, key) {
        Some(k) => match parse_tok_string(s.skip(k)) {
            Some((v, m)) => Some((v, k + m)),
            None => None,
        },
        None => None,
    }
}

/// A `"key": number` member.
pub open spec fn parse_number_member(s: Seq<char>, key: Seq<char>) -> Option<(u64, int)> {
    match parse_key(s, key) {
        Some(k) => match parse_tok_number(s.skip(k)) {
            Some((v, m)) => Some((v, k + m)),
            None => None,
        },
        None => None,
    }
}

/// A `"key": "word"` member whose word must denote a rating.
pub open spec fn parse_rating_member(s: Seq<char>, key: Seq<char>) -> Option<(Rating, int)> {
    match parse_key(s, key) {
        Some(k) => match parse_tok_string(s.skip(k)) {
            Some((w, m)) => match word_to_rating(w) {
                Some(r) => Some((r, k + m)),
                None => None,
            },
            None => None,
        },
        None => None,
    }
}

pub open spec fn word_name() -> Seq<char> {
    seq!['n', 'a', 'm', 'e']
}

pub open spec fn word_rating() -> Seq<char> {
    seq!['r', 'a', 't', 'i', 'n', 'g']
}

pub open spec fn word_times_played() -> Seq<char> {
    seq!['t', 'i', 'm', 'e', 's', '_', 'p', 'l', 'a', 'y', 'e', 'd']
}

pub open spec fn word_last_playthrough() -> Seq<char> {
    seq!['l', 'a', 's', 't', '_', 'p', 'l', 'a', 'y', 't', 'h', 'r', 'o', 'u', 'g', 'h']
}

pub open spec fn word_notes() -> Seq<char> {
    seq!['n', 'o', 't', 'e', 's']
}

/// One record object, the five members in their fixed order.
pub open spec fn parse_game(s: Seq<char>) -> Option<(GameModel, int)> {
    match tok(s, '{') {
        Some(k0) => match parse_str_member(s.skip(k0), word_name()) {
            Some((name, k1)) => match tok(s.skip(k0 + k1), ',') {
                Some(k2) => match parse_rating_member(s.skip(k0 + k1 + k2), word_rating()) {
                    Some((rt, k3)) => match tok(s.skip(k0 + k1 + k2 + k3), ',') {
                        Some(k4) => match parse_number_member(
                            s.skip(k0 + k1 + k2 + k3 + k4),
                            word_times_played(),
                        ) {
                            Some((tp, k5)) => match tok(s.skip(k0 + k1 + k2 + k3 + k4 + k5), ',') {
                                Some(k6) => match parse_str_member(
                                    s.skip(k0 + k1 + k2 + k3 + k4 + k5 + k6),
                                    word_last_playthrough(),
                                ) {
                                    Some((lp, k7)) => match tok(
                                        s.skip(k0 + k1 + k2 + k3 + k4 + k5 + k6 + k7),
                                        ',',
                                    ) {
                                        Some(k8) => match parse_str_member(
                                            s.skip(k0 + k1 + k2 + k3 + k4 + k5 + k6 + k7 + k8),
                                            word_notes(),
                                        ) {
                                            Some((nt, k9)) => match tok(
                                                s.skip(
                                                    k0 + k1 + k2 + k3 + k4 + k5 + k6 + k7 + k8
                                                        + k9,
                                                ),
                                                '}',
                                            ) {
                                                Some(k10) => Some(
                                                    (
                                                        GameModel {
                                                            name: name,
                                                            rating: rt,
                                                            times_played: tp,
                                                            last_playthrough: lp,
                                                            notes: nt,
                                                        },
                                                        k0 + k1 + k2 + k3 + k4 + k5 + k6 + k7 + k8
                                                            + k9 + k10,
                                                    ),
                                                ),
                                                None => None,
                                            },
                                            None => None,
                                        },
                                        None => None,
                                    },
                                    None => None,
                                },
                                None => None,
                            },
                            None => None,
                        },
                        None => None,
                    },
                    None => None,
                },
                None => None,
            },
            None => None,
        },
        None => None,
    }
}

/// The rest of an array after one record: either a closing bracket, or
/// a comma, another record, and so on.
pub open spec fn parse_more_games(s: Seq<char>) -> Option<(Seq<GameModel>, int)>
    decreases s.len(),
{
    match tok(s, ']') {
        Some(k) => Some((Seq::empty(), k)),
        None => match tok(s, ',') {
            Some(k) => if k <= s.len() {
                match parse_game(s.skip(k)) {
                    Some((g, m)) => if 0 <= m && 1 <= k + m <= s.len() {
                        match parse_more_games(s.skip(k + m)) {
                            Some((gs, t)) => Some((seq![g] + gs, k + m + t)),
                            None => None,
                        }
                    } else {
                        None
                    },
                    None => None,
                }
            } else {
                None
            },
            None => None,
        },
    }
}

/// A whole array of records.
pub open spec fn parse_games(s: Seq<char>) -> Option<(Seq<GameModel>, int)> {
    match tok(s, '[') {
        Some(k) => {
            let w = skip_ws(s.skip(k));
            if k + w < s.len() && s[k + w] == ']' {
                Some((Seq::empty(), k + w + 1))
            } else if k <= s.len() {
                match parse_game(s.skip(k)) {
                    Some((g, m)) => if 0 <= m && 1 <= k + m <= s.len() {
                        match parse_more_games(s.skip(k + m)) {
                            Some((gs, t)) => Some((seq![g] + gs, k + m + t)),
                            None => None,
                        }
                    } else {
                        None
                    },
                    None => None,
                }
            } else {
                None
            }
        },
        None => None,
    }
}

/// A whole persisted store: the array and nothing after it but blanks.
pub open spec fn parse_store_text(s: Seq<char>) -> Option<Seq<GameModel>> {
    match parse_games(s) {
        Some((gs, k)) => if 0 <= k <= s.len() && k + skip_ws(s.skip(k)) == s.len() {
            Some(gs)
        } else {
            None
        },
        None => None,
    }
}

pub proof fn lemma_skip_succ(s: Seq<char>, i: int)
    requires
        0 <= i < s.len(),
    ensures
        s.skip(i).drop_first() == s.skip(i + 1),
{
    assert(s.skip(i).drop_first() =~= s.skip(i + 1));
}

pub proof fn lemma_skip_skip(s: Seq<char>, i: int, k: int)
    requires
        0 <= i,
        0 <= k,
        i + k <= s.len(),
    ensures
        s.skip(i).skip(k) == s.skip(i + k),
{
    assert(s.skip(i).skip(k) =~= s.skip(i + k));
}

/// A blank prefix of known extent pins `skip_ws` down.
pub proof fn lemma_skip_ws_value(t: Seq<char>, k: int)
    requires
        0 <= k <= t.len(),
        forall|j: int| 0 <= j < k ==> is_space(#[trigger] t[j]),
        k == t.len() || !is_space(t[k]),
    ensures
        skip_ws(t) == k,
    decreases k,
{
    if k > 0 {
        assert(forall|j: int| 1 <= j < t.len() ==> #[trigger] t[j] == t.drop_first()[j - 1]);
        lemma_skip_ws_value(t.drop_first(), k - 1);
    }
}

/// A digit prefix of known extent pins `count_digits` down.
pub proof fn lemma_count_digits_value(t: Seq<char>, k: int)
    requires
        0 <= k <= t.len(),
        forall|j: int| 0 <= j < k ==> is_digit(#[trigger] t[j]),
        k == t.len() || !is_digit(t[k]),
    ensures
        count_digits(t) == k,
    decreases k,
{
    if k > 0 {
        assert(forall|j: int| 1 <= j < t.len() ==> #[trigger] t[j] == t.drop_first()[j - 1]);
        lemma_count_digits_value(t.drop_first(), k - 1);
    }
}

/// More digits never shrink the value they denote.
pub proof fn lemma_digits_val_mono(t: Seq<char>, a: int, b: int)
    requires
        0 <= a <= b <= t.len(),
        forall|j: int| 0 <= j < b ==> is_digit(#[trigger] t[j]),
    ensures
        digits_val(t.take(a)) <= digits_val(t.take(b)),
    decreases b - a,
{
    if a < b {
        lemma_digits_val_mono(t, a, b - 1);
        assert(all_digits(t.take(b - 1)));
        crate::text::lemma_digits_val_nonneg(t.take(b - 1));
        crate::text::lemma_digits_val_snoc(t.take(b - 1), t[b - 1]);
        assert(t.take(b - 1).push(t[b - 1]) =~= t.take(b));
    }
}

/// The executable hexadecimal digit.
fn hex_digit_char(n: u32) -> (c: char)
    requires
        n < 16,
    ensures
        c == hex_digit(n as int),
{
    if n == 0 {
        '0'
    } else if n == 1 {
        '1'
    } else if n == 2 {
        '2'
    } else if n == 3 {
        '3'
    } else if n == 4 {
        '4'
    } else if n == 5 {
        '5'
    } else if n == 6 {
        '6'
    } else if n == 7 {
        '7'
    } else if n == 8 {
        '8'
    } else if n == 9 {
        '9'
    } else if n == 10 {
        'a'
    } else if n == 11 {
        'b'
    } else if n == 12 {
        'c'
    } else if n == 13 {
        'd'
    } else if n == 14 {
        'e'
    } else {
        'f'
    }
}

/// Writes a text with every character escaped as JSON requires.
#[verifier::loop_isolation(false)]
fn write_escaped(out: &mut String, s: &str)
    ensures
        final(out)@ == old(out)@ + esc(s@),
{
    let n = s.unicode_len();
    let mut i: usize = 0;
    while i < n
        invariant
            i <= n,
            out@ == old(out)@ + esc(s@.take(i as int)),
        decreases n - i,
    {
        let c = s.get_char(i);
        let u = c as u32;
        if u < 32 || c == '"' || c == '\\' {
            push_char(out, '\\');
            push_char(out, 'u');
            push_char(out, '0');
            push_char(out, '0');
            push_char(out, hex_digit_char(u / 16));
            push_char(out, hex_digit_char(u % 16));
        } else {
            push_char(out, c);
        }
        proof {
            lemma_esc_snoc(s@.take(i as int), s@[i as int]);
            assert(s@.take(i as int).push(s@[i as int]) =~= s@.take(i + 1 as int));
            assert(out@ =~= old(out)@ + esc(s@.take(i + 1 as int)));
        }
        i = i + 1;
    }
    proof {
        assert(s@.take(n as int) =~= s@);
    }
}

/// Writes a JSON string.
fn write_quoted(out: &mut String, s: &str)
    ensures
        final(out)@ == old(out)@ + quoted(s@),
{
    push_char(out, '"');
    write_escaped(out, s);
    push_char(out, '"');
    proof {
        assert(out@ =~= old(out)@ + quoted(s@));
    }
}

/// Writes a number's decimal digits.
fn write_u64(out: &mut String, n: u64)
    ensures
        final(out)@ == old(out)@ + dec_digits(n as int),
    decreases n,
{
    if n < 10 {
        push_char(out, hex_digit_char(n as u32));
    } else {
        write_u64(out, n / 10);
        push_char(out, hex_digit_char((n % 10) as u32));
        proof {
            assert(out@ =~= old(out)@ + dec_digits(n as int));
        }
    }
}

/// Writes a rating's persisted word as a JSON string.
fn write_rating_word(out: &mut String, r: Rating)
    ensures
        final(out)@ == old(out)@ + quoted(rating_word(r)),
{
    push_char(out, '"');
    match r {
        Rating::One => {
            proof {
                reveal_strlit("one");
                assert("one"@ =~= rating_word(r));
            }
            out.append("one");
        },
        Rating::Two => {
            proof {
                reveal_strlit("two");
                assert("two"@ =~= rating_word(r));
            }
            out.append("two");
        },
        Rating::Three => {
            proof {
                reveal_strlit("three");
                assert("three"@ =~= rating_word(r));
            }
            out.append("three");
        },
        Rating::Four => {
            proof {
                reveal_strlit("four");
                assert("four"@ =~= rating_word(r));
            }
            out.append("four");
        },
        Rating::Five => {
            proof {
                reveal_strlit("five");
                assert("five"@ =~= rating_word(r));
            }
            out.append("five");
        },
    }
    push_char(out, '"');
    proof {
        lemma_esc_plain(rating_word(r));
        assert(out@ =~= old(out)@ + quoted(rating_word(r)));
    }
}

/// Writes one object key, quotes and colon included.
fn write_key_name(out: &mut String)
    ensures
        final(out)@ == old(out)@ + key_name(),
{
    proof {
        reveal_strlit("\"name\":");
        assert("\"name\":"@ =~= key_name());
    }
    out.append("\"name\":");
}

/// Writes one object key, quotes and colon included.
fn write_key_rating(out: &mut String)
    ensures
        final(out)@ == old(out)@ + key_rating(),
{
    proof {
        reveal_strlit("\"rating\":");
        assert("\"rating\":"@ =~= key_rating());
    }
    out.append("\"rating\":");
}

/// Writes one object key, quotes and colon included.
fn write_key_times_played(out: &mut String)
    ensures
        final(out)@ == old(out)@ + key_times_played(),
{
    proof {
        reveal_strlit("\"times_played\":");
        assert("\"times_played\":"@ =~= key_times_played());
    }
    out.append("\"times_played\":");
}

/// Writes one object key, quotes and colon included.
fn write_key_last_playthrough(out: &mut String)
    ensures
        final(out)@ == old(out)@ + key_last_playthrough(),
{
    proof {
        reveal_strlit("\"last_playthrough\":");
        assert("\"last_playthrough\":"@ =~= key_last_playthrough());
    }
    out.append("\"last_playthrough\":");
}

/// Writes one object key, quotes and colon included.
fn write_key_notes(out: &mut String)
    ensures
        final(out)@ == old(out)@ + key_notes(),
{
    proof {
        reveal_strlit("\"notes\":");
        assert("\"notes\":"@ =~= key_notes());
    }
    out.append("\"notes\":");
}

/// Writes one record as a JSON object.
fn write_game(out: &mut String, g: &Game)
    ensures
        final(out)@ == old(out)@ + render_game(g@),
{
    push_char(out, '{');
    write_key_name(out);
    write_quoted(out, g.name.as_str());
    push_char(out, ',');
    write_key_rating(out);
    write_rating_word(out, g.rating);
    push_char(out, ',');
    write_key_times_played(out);
    write_u64(out, g.times_played);
    push_char(out, ',');
    write_key_last_playthrough(out);
    write_quoted(out, g.last_playthrough.as_str());
    push_char(out, ',');
    write_key_notes(out);
    write_quoted(out, g.notes.as_str());
    push_char(out, '}');
    proof {
        assert(out@ =~= old(out)@ + render_game(g@));
    }
}

// --------------------------------------------------------------- round trip
/// Hexadecimal digits read back as their value.
pub proof fn lemma_hex_digit_val(n: int)
    requires
        0 <= n < 16,
    ensures
        is_hex(hex_digit(n)),
        hex_val(hex_digit(n)) == n,
        !is_space(hex_digit(n)),
{
}

/// Decimal digit characters read back as their value.
pub proof fn lemma_digit_char(n: int)
    requires
        0 <= n < 10,
    ensures
        is_digit(hex_digit(n)),
        digit_val(hex_digit(n)) == n,
{
}

/// A decimal rendering is all digits and denotes its number.
pub proof fn lemma_dec_digits_all(n: int)
    requires
        n >= 0,
    ensures
        dec_digits(n).len() >= 1,
        forall|j: int| 0 <= j < dec_digits(n).len() ==> is_digit(#[trigger] dec_digits(n)[j]),
        digits_val(dec_digits(n)) == n,
    decreases n,
{
    if n < 10 {
        lemma_digit_char(n);
        let d = dec_digits(n);
        assert(d.drop_last() =~= Seq::<char>::empty());
        assert(d.last() == hex_digit(n));
        assert(digits_val(Seq::<char>::empty()) == 0);
        assert(digits_val(d) == digits_val(d.drop_last()) * 10 + digit_val(d.last()));
    } else {
        lemma_dec_digits_all(n / 10);
        lemma_digit_char(n % 10);
        crate::text::lemma_digits_val_snoc(dec_digits(n / 10), hex_digit(n % 10));
        assert(n / 10 * 10 + n % 10 == n);
    }
}

/// A rating's word reads back as that rating.
pub proof fn lemma_word_rating(r: Rating)
    ensures
        word_to_rating(rating_word(r)) == Some(r),
{
}

/// A single expected punctuation character is read off the front.
pub proof fn lemma_tok_char(c: char, rest: Seq<char>)
    requires
        !is_space(c),
    ensures
        tok(seq![c] + rest, c) == Some(1int),
{
    let s = seq![c] + rest;
    assert(s[0] == c);
}

/// An escaped string body followed by its closing quote reads back as
/// the original text, whatever comes after.
pub proof fn lemma_parse_str_body_round(v: Seq<char>, rest: Seq<char>)
    ensures
        parse_str_body(esc(v) + seq!['"'] + rest) == Some((v, esc(v).len() as int + 1)),
    decreases v.len(),
{
    let s = esc(v) + seq!['"'] + rest;
    if v.len() == 0 {
        assert(esc(v) =~= Seq::<char>::empty());
        assert(s[0] == '"');
        assert(v =~= Seq::<char>::empty());
    } else {
        let c = v[0];
        let v1 = v.drop_first();
        let tail = esc(v1) + seq!['"'] + rest;
        assert(s =~= esc_char(c) + tail);
        lemma_parse_str_body_round(v1, rest);
        if must_escape(c) {
            let code = (c as u32) as int;
            assert(code < 256);
            lemma_hex_digit_val(code / 16);
            lemma_hex_digit_val(code % 16);
            assert(s[0] == '\\');
            let s1 = s.drop_first();
            assert(s1 =~= seq!['u', '0', '0', hex_digit(code / 16), hex_digit(code % 16)] + tail);
            assert(s1[0] == 'u' && s1[1] == '0' && s1[2] == '0');
            assert(s1[3] == hex_digit(code / 16) && s1[4] == hex_digit(code % 16));
            assert(16 * hex_val(s1[3]) + hex_val(s1[4]) == code);
            vstd::utf8::char_u32_cast(c, c as u32);
            assert(code_char(code) == c);
            assert(parse_escape(s1) == Some((c, 5int)));
            assert(s.skip(6) =~= tail);
            assert(seq![c] + v1 =~= v);
        } else {
            assert(s[0] == c);
            assert(s.drop_first() =~= tail);
            assert(seq![c] + v1 =~= v);
        }
    }
}

/// A quoted string reads back as the original text.
pub proof fn lemma_parse_string_round(v: Seq<char>, rest: Seq<char>)
    ensures
        parse_string(quoted(v) + rest) == Some((v, quoted(v).len() as int)),
{
    let s = quoted(v) + rest;
    assert(s[0] == '"');
    assert(s.drop_first() =~= esc(v) + seq!['"'] + rest);
    lemma_parse_str_body_round(v, rest);
}

/// A decimal rendering followed by a non-digit reads back as the
/// number.
pub proof fn lemma_parse_number_round(n: u64, rest: Seq<char>)
    requires
        rest.len() > 0 ==> !is_digit(rest[0]),
    ensures
        parse_number(dec_digits(n as int) + rest) == Some((n, dec_digits(n as int).len() as int)),
{
    let d = dec_digits(n as int);
    let s = d + rest;
    lemma_dec_digits_all(n as int);
    assert(forall|j: int| 0 <= j < d.len() ==> #[trigger] s[j] == d[j]);
    lemma_count_digits_value(s, d.len() as int);
    assert(s.take(d.len() as int) =~= d);
}

/// Each object key is its word as a quoted string plus a colon.
pub proof fn lemma_key_quoted()
    ensures
        key_name() == quoted(word_name()) + seq![':'],
        key_rating() == quoted(word_rating()) + seq![':'],
        key_times_played() == quoted(word_times_played()) + seq![':'],
        key_last_playthrough() == quoted(word_last_playthrough()) + seq![':'],
        key_notes() == quoted(word_notes()) + seq![':'],
{
    lemma_esc_plain(word_name());
    lemma_esc_plain(word_rating());
    lemma_esc_plain(word_times_played());
    lemma_esc_plain(word_last_playthrough());
    lemma_esc_plain(word_notes());
    assert(key_name() =~= quoted(word_name()) + seq![':']);
    assert(key_rating() =~= quoted(word_rating()) + seq![':']);
    assert(key_times_played() =~= quoted(word_times_played()) + seq![':']);
    assert(key_last_playthrough() =~= quoted(word_last_playthrough()) + seq![':']);
    assert(key_notes() =~= quoted(word_notes()) + seq![':']);
}

/// A rendered key reads back, leaving the reader just after the colon.
pub proof fn lemma_parse_key_round(word: Seq<char>, rest: Seq<char>)
    ensures
        parse_key(quoted(word) + seq![':'] + rest, word) == Some(quoted(word).len() as int + 1),
{
    let s = quoted(word) + seq![':'] + rest;
    assert(s[0] == '"');
    assert(skip_ws(s) == 0);
    assert(s.skip(0) =~= s);
    assert(s =~= quoted(word) + (seq![':'] + rest));
    lemma_parse_string_round(word, seq![':'] + rest);
    assert(parse_tok_string(s) == Some((word, quoted(word).len() as int)));
    assert(s.skip(quoted(word).len() as int) =~= seq![':'] + rest);
    lemma_tok_char(':', rest);
}

/// A rendered string member reads back as its value.
pub proof fn lemma_parse_str_member_round(word: Seq<char>, v: Seq<char>, rest: Seq<char>)
    ensures
        parse_str_member(quoted(word) + seq![':'] + quoted(v) + rest, word) == Some(
            (v, quoted(word).len() as int + 1 + quoted(v).len() as int),
        ),
{
    let s = quoted(word) + seq![':'] + quoted(v) + rest;
    assert(s =~= quoted(word) + seq![':'] + (quoted(v) + rest));
    lemma_parse_key_round(word, quoted(v) + rest);
    let k: int = quoted(word).len() as int + 1;
    assert(s.skip(k as int) =~= quoted(v) + rest);
    let t = quoted(v) + rest;
    assert(t[0] == '"');
    assert(skip_ws(t) == 0);
    assert(t.skip(0) =~= t);
    lemma_parse_string_round(v, rest);
}

/// A rendered number member reads back as its value.
pub proof fn lemma_parse_number_member_round(word: Seq<char>, n: u64, rest: Seq<char>)
    requires
        rest.len() > 0 ==> !is_digit(rest[0]),
    ensures
        parse_number_member(quoted(word) + seq![':'] + dec_digits(n as int) + rest, word) == Some(
            (n, quoted(word).len() as int + 1 + dec_digits(n as int).len() as int),
        ),
{
    let d = dec_digits(n as int);
    let s = quoted(word) + seq![':'] + d + rest;
    assert(s =~= quoted(word) + seq![':'] + (d + rest));
    lemma_parse_key_round(word, d + rest);
    let k: int = quoted(word).len() as int + 1;
    assert(s.skip(k as int) =~= d + rest);
    let t = d + rest;
    lemma_dec_digits_all(n as int);
    assert(t[0] == d[0]);
    assert(is_digit(t[0]));
    assert(!is_space(t[0]));
    assert(skip_ws(t) == 0);
    assert(t.skip(0) =~= t);
    lemma_parse_number_round(n, rest);
}

/// A rendered rating member reads back as its rating.
pub proof fn lemma_parse_rating_member_round(word: Seq<char>, r: Rating, rest: Seq<char>)
    ensures
        parse_rating_member(quoted(word) + seq![':'] + quoted(rating_word(r)) + rest, word)
            == Some((r, quoted(word).len() as int + 1 + quoted(rating_word(r)).len() as int)),
{
    lemma_parse_str_member_round(word, rating_word(r), rest);
    lemma_word_rating(r);
}

/// The rendered object followed by `rest`, re-associated so that each
/// member stands at the front of its own suffix.
pub open spec fn game_text(g: GameModel, rest: Seq<char>) -> Seq<char> {
    seq!['{'] + (quoted(word_name()) + seq![':'] + quoted(g.name) + (seq![','] + (quoted(
        word_rating(),
    ) + seq![':'] + quoted(rating_word(g.rating)) + (seq![','] + (quoted(word_times_played())
        + seq![':'] + dec_digits(g.times_played as int) + (seq![','] + (quoted(
        word_last_playthrough(),
    ) + seq![':'] + quoted(g.last_playthrough) + (seq![','] + (quoted(word_notes()) + seq![':']
        + quoted(g.notes) + (seq!['}'] + rest))))))))))
}

/// A rendered object is its re-associated form.
#[verifier::rlimit(100)]
pub proof fn lemma_game_text(g: GameModel, rest: Seq<char>)
    ensures
        render_game(g) + rest == game_text(g, rest),
{
    lemma_key_quoted();
    assert(render_game(g) + rest =~= game_text(g, rest));
}

/// A rendered record object reads back as the record.
#[verifier::rlimit(100)]
pub proof fn lemma_parse_game_round(g: GameModel, rest: Seq<char>)
    ensures
        parse_game(render_game(g) + rest) == Some((g, render_game(g).len() as int)),
{
    lemma_game_text(g, rest);
    let t9: Seq<char> = seq!['}'] + rest;
    let t8 = quoted(word_notes()) + seq![':'] + quoted(g.notes) + t9;
    let t7: Seq<char> = seq![','] + t8;
    let t6 = quoted(word_last_playthrough()) + seq![':'] + quoted(g.last_playthrough) + t7;
    let t5: Seq<char> = seq![','] + t6;
    let t4 = quoted(word_times_played()) + seq![':'] + dec_digits(g.times_played as int) + t5;
    let t3: Seq<char> = seq![','] + t4;
    let t2 = quoted(word_rating()) + seq![':'] + quoted(rating_word(g.rating)) + t3;
    let t1: Seq<char> = seq![','] + t2;
    let t0 = quoted(word_name()) + seq![':'] + quoted(g.name) + t1;
    let s = seq!['{'] + t0;
    assert(s == game_text(g, rest));
    lemma_tok_char('{', t0);
    assert(tok(s, '{') == Some(1int));
    assert(s.skip(1) =~= t0);
    lemma_parse_str_member_round(word_name(), g.name, t1);
    let k1: int = quoted(word_name()).len() as int + 1 + quoted(g.name).len() as int;
    assert(parse_str_member(s.skip(1), word_name()) == Some((g.name, k1)));
    let o2: int = 1 + k1;
    lemma_skip_skip(s, 1, k1);
    assert(t0.skip(k1) =~= t1);
    assert(s.skip(o2) == t1);
    lemma_tok_char(',', t2);
    assert(tok(s.skip(o2), ',') == Some(1int));
    let o3: int = o2 + 1;
    lemma_skip_skip(s, o2, 1);
    assert(t1.skip(1) =~= t2);
    assert(s.skip(o3) == t2);
    lemma_parse_rating_member_round(word_rating(), g.rating, t3);
    let k2: int = quoted(word_rating()).len() as int + 1 + quoted(rating_word(g.rating)).len()
        as int;
    assert(parse_rating_member(s.skip(o3), word_rating()) == Some((g.rating, k2)));
    let o4: int = o3 + k2;
    lemma_skip_skip(s, o3, k2);
    assert(t2.skip(k2) =~= t3);
    assert(s.skip(o4) == t3);
    lemma_tok_char(',', t4);
    assert(tok(s.skip(o4), ',') == Some(1int));
    let o5: int = o4 + 1;
    lemma_skip_skip(s, o4, 1);
    assert(t3.skip(1) =~= t4);
    assert(s.skip(o5) == t4);
    lemma_parse_number_member_round(word_times_played(), g.times_played, t5);
    let k3: int = quoted(word_times_played()).len() as int + 1 + dec_digits(
        g.times_played as int,
    ).len() as int;
    assert(parse_number_member(s.skip(o5), word_times_played()) == Some((g.times_played, k3)));
    let o6: int = o5 + k3;
    lemma_skip_skip(s, o5, k3);
    assert(t4.skip(k3) =~= t5);
    assert(s.skip(o6) == t5);
    lemma_tok_char(',', t6);
    assert(tok(s.skip(o6), ',') == Some(1int));
    let o7: int = o6 + 1;
    lemma_skip_skip(s, o6, 1);
    assert(t5.skip(1) =~= t6);
    assert(s.skip(o7) == t6);
    lemma_parse_str_member_round(word_last_playthrough(), g.last_playthrough, t7);
    let k4: int = quoted(word_last_playthrough()).len() as int + 1 + quoted(
        g.last_playthrough,
    ).len() as int;
    assert(parse_str_member(s.skip(o7), word_last_playthrough()) == Some(
        (g.last_playthrough, k4),
    ));
    let o8: int = o7 + k4;
    lemma_skip_skip(s, o7, k4);
    assert(t6.skip(k4) =~= t7);
    assert(s.skip(o8) == t7);
    lemma_tok_char(',', t8);
    assert(tok(s.skip(o8), ',') == Some(1int));
    let o9: int = o8 + 1;
    lemma_skip_skip(s, o8, 1);
    assert(t7.skip(1) =~= t8);
    assert(s.skip(o9) == t8);
    lemma_parse_str_member_round(word_notes(), g.notes, t9);
    let k5: int = quoted(word_notes()).len() as int + 1 + quoted(g.notes).len() as int;
    assert(parse_str_member(s.skip(o9), word_notes()) == Some((g.notes, k5)));
    let o10: int = o9 + k5;
    lemma_skip_skip(s, o9, k5);
    assert(t8.skip(k5) =~= t9);
    assert(s.skip(o10) == t9);
    lemma_tok_char('}', rest);
    assert(tok(s.skip(o10), '}') == Some(1int));
    assert(s.len() - o10 == t9.len());
    assert(o10 + 1 == render_game(g).len());
}

/// The tail of a rendered array: a comma and a record for each entry.
pub open spec fn more_text(gs: Seq<GameModel>) -> Seq<char>
    decreases gs.len(),
{
    if gs.len() == 0 {
        Seq::empty()
    } else {
        seq![','] + render_game(gs[0]) + more_text(gs.drop_first())
    }
}

/// A rendered list body is its first record followed by the tail text.
pub proof fn lemma_body_more(gs: Seq<GameModel>)
    requires
        gs.len() > 0,
    ensures
        render_list_body(gs) == render_game(gs[0]) + more_text(gs.drop_first()),
    decreases gs.len(),
{
    if gs.len() == 1 {
        assert(more_text(gs.drop_first()) =~= Seq::<char>::empty());
        assert(render_game(gs[0]) + Seq::<char>::empty() =~= render_game(gs[0]));
    } else {
        lemma_body_more(gs.drop_first());
        assert(render_game(gs[0]) + seq![','] + (render_game(gs.drop_first()[0]) + more_text(
            gs.drop_first().drop_first(),
        )) =~= render_game(gs[0]) + more_text(gs.drop_first()));
    }
}

/// The rendered tail of an array reads back as the remaining records.
#[verifier::rlimit(100)]
pub proof fn lemma_parse_more_round(gs: Seq<GameModel>, rest: Seq<char>)
    ensures
        parse_more_games(more_text(gs) + seq![']'] + rest) == Some(
            (gs, more_text(gs).len() as int + 1),
        ),
    decreases gs.len(),
{
    let s = more_text(gs) + seq![']'] + rest;
    if gs.len() == 0 {
        assert(s =~= seq![']'] + rest);
        lemma_tok_char(']', rest);
        assert(gs =~= Seq::<GameModel>::empty());
    } else {
        let g = gs[0];
        let tail = more_text(gs.drop_first()) + seq![']'] + rest;
        assert(s =~= seq![','] + (render_game(g) + tail));
        assert(s[0] == ',');
        assert(skip_ws(s) == 0);
        assert(tok(s, ']') is None);
        lemma_tok_char(',', render_game(g) + tail);
        assert(s.skip(1) =~= render_game(g) + tail);
        lemma_parse_game_round(g, tail);
        let m = render_game(g).len() as int;
        assert(s.skip(1 + m) =~= tail);
        lemma_parse_more_round(gs.drop_first(), rest);
        assert(seq![g] + gs.drop_first() =~= gs);
    }
}

/// A rendered array reads back as its records.
#[verifier::rlimit(100)]
pub proof fn lemma_parse_games_round(gs: Seq<GameModel>, rest: Seq<char>)
    ensures
        parse_games(render_games(gs) + rest) == Some((gs, render_games(gs).len() as int)),
{
    let s = render_games(gs) + rest;
    if gs.len() == 0 {
        assert(render_list_body(gs) =~= Seq::<char>::empty());
        assert(s =~= seq!['['] + (seq![']'] + rest));
        lemma_tok_char('[', seq![']'] + rest);
        assert(s.skip(1) =~= seq![']'] + rest);
        assert(s.skip(1)[0] == ']');
        assert(skip_ws(s.skip(1)) == 0);
        assert(s[1] == ']');
        assert(gs =~= Seq::<GameModel>::empty());
    } else {
        lemma_body_more(gs);
        let g = gs[0];
        let tail = more_text(gs.drop_first()) + seq![']'] + rest;
        assert(s =~= seq!['['] + (render_game(g) + tail));
        lemma_tok_char('[', render_game(g) + tail);
        assert(s.skip(1) =~= render_game(g) + tail);
        assert(s.skip(1)[0] == '{');
        assert(skip_ws(s.skip(1)) == 0);
        assert(s[1] == '{');
        lemma_parse_game_round(g, tail);
        let m = render_game(g).len() as int;
        assert(s.skip(1 + m) =~= tail);
        lemma_parse_more_round(gs.drop_first(), rest);
        assert(seq![g] + gs.drop_first() =~= gs);
    }
}

/// Law: reading a rendered store back yields the store unchanged,
/// record for record and field for field.
pub proof fn lemma_save_load_round_trip(gs: Seq<GameModel>)
    ensures
        parse_store_text(render_games(gs)) == Some(gs),
{
    let s = render_games(gs);
    assert(s =~= render_games(gs) + Seq::<char>::empty());
    lemma_parse_games_round(gs, Seq::<char>::empty());
    let k = render_games(gs).len() as int;
    assert(s.skip(k) =~= Seq::<char>::empty());
    assert(skip_ws(s.skip(k)) == 0);
}

/// The executable blank skipper: the first non-blank position at or
/// after `i`.
#[verifier::loop_isolation(false)]
fn skip_ws_at(s: &str, n: usize, i: usize) -> (j: usize)
    requires
        n == s@.len(),
        i <= n,
    ensures
        i <= j <= n,
        skip_ws(s@.skip(i as int)) == j - i,
{
    let mut j = i;
    while j < n && is_space_char(s.get_char(j))
        invariant
            i <= j <= n,
            forall|q: int| i <= q < j ==> is_space(#[trigger] s@[q]),
        decreases n - j,
    {
        j = j + 1;
    }
    proof {
        lemma_skip_ws_value(s@.skip(i as int), j - i);
    }
    j
}

/// The executable token reader: one expected character after blanks.
fn tok_at(s: &str, n: usize, i: usize, c: char) -> (r: Option<usize>)
    requires
        n == s@.len(),
        i <= n,
    ensures
        match r {
            Some(j) => i < j <= n && tok(s@.skip(i as int), c) == Some(j - i),
            None => tok(s@.skip(i as int), c) is None,
        },
{
    let j = skip_ws_at(s, n, i);
    if j < n && s.get_char(j) == c {
        Some(j + 1)
    } else {
        None
    }
}

/// The executable hexadecimal digit reader.
fn hex_val_char(c: char) -> (v: u32)
    requires
        is_hex(c),
    ensures
        v == hex_val(c),
        v < 16,
{
    let u = c as u32;
    if u <= 57 {
        u - 48
    } else if u >= 97 {
        u - 87
    } else {
        u - 55
    }
}

/// The executable escape reader, positioned just after a backslash.
fn escape_at(s: &str, n: usize, i: usize) -> (r: Option<(char, usize)>)
    requires
        n == s@.len(),
        i <= n,
    ensures
        match r {
            Some((c, j)) => i < j <= n && parse_escape(s@.skip(i as int)) == Some((c, j - i)),
            None => parse_escape(s@.skip(i as int)) is None,
        },
{
    if i >= n {
        return None;
    }
    let c0 = s.get_char(i);
    if c0 == '"' {
        Some(('"', i + 1))
    } else if c0 == '\\' {
        Some(('\\', i + 1))
    } else if c0 == '/' {
        Some(('/', i + 1))
    } else if c0 == 'n' {
        Some(('\n', i + 1))
    } else if c0 == 't' {
        Some(('\t', i + 1))
    } else if c0 == 'r' {
        Some(('\r', i + 1))
    } else if c0 == 'b' {
        Some(('\u{8}', i + 1))
    } else if c0 == 'f' {
        Some(('\u{c}', i + 1))
    } else if c0 == 'u' {
        if n - i >= 5 && s.get_char(i + 1) == '0' && s.get_char(i + 2) == '0' {
            let c3 = s.get_char(i + 3);
            let c4 = s.get_char(i + 4);
            let u3 = c3 as u32;
            let u4 = c4 as u32;
            let hex3 = 48 <= u3 && u3 <= 57 || 97 <= u3 && u3 <= 102 || 65 <= u3 && u3 <= 70;
            let hex4 = 48 <= u4 && u4 <= 57 || 97 <= u4 && u4 <= 102 || 65 <= u4 && u4 <= 70;
            if hex3 && hex4 {
                let code = 16 * hex_val_char(c3) + hex_val_char(c4);
                let c = (code as u8) as char;
                proof {
                    assert(c == code_char(16 * hex_val(s@.skip(i as int)[3]) + hex_val(
                        s@.skip(i as int)[4],
                    )));
                }
                Some((c, i + 5))
            } else {
                None
            }
        } else {
            None
        }
    } else {
        None
    }
}

/// The executable string-body reader, positioned just after the
/// opening quote.
fn str_body_at(s: &str, n: usize, i: usize) -> (r: Option<(String, usize)>)
    requires
        n == s@.len(),
        i <= n,
    ensures
        match r {
            Some((v, j)) => i < j <= n && parse_str_body(s@.skip(i as int)) == Some(
                (v@, (j - i) as int),
            ),
            None => parse_str_body(s@.skip(i as int)) is None,
        },
    decreases n - i,
{
    if i >= n {
        return None;
    }
    let c0 = s.get_char(i);
    if c0 == '"' {
        let out = String::new();
        proof {
            assert(out@ =~= Seq::<char>::empty());
        }
        Some((out, i + 1))
    } else if c0 == '\\' {
        proof {
            lemma_skip_succ(s@, i as int);
        }
        match escape_at(s, n, i + 1) {
            Some((c, j2)) => {
                proof {
                    lemma_skip_skip(s@, i as int, (j2 - i) as int);
                }
                match str_body_at(s, n, j2) {
                    Some((v, j3)) => {
                        let mut out = String::new();
                        push_char(&mut out, c);
                        out.append(v.as_str());
                        proof {
                            assert(out@ =~= seq![c] + v@);
                        }
                        Some((out, j3))
                    },
                    None => None,
                }
            },
            None => None,
        }
    } else {
        proof {
            lemma_skip_succ(s@, i as int);
        }
        match str_body_at(s, n, i + 1) {
            Some((v, j2)) => {
                let mut out = String::new();
                push_char(&mut out, c0);
                out.append(v.as_str());
                proof {
                    assert(out@ =~= seq![c0] + v@);
                }
                Some((out, j2))
            },
            None => None,
        }
    }
}

/// The executable string reader.
fn string_at(s: &str, n: usize, i: usize) -> (r: Option<(String, usize)>)
    requires
        n == s@.len(),
        i <= n,
    ensures
        match r {
            Some((v, j)) => i < j <= n && parse_string(s@.skip(i as int)) == Some(
                (v@, (j - i) as int),
            ),
            None => parse_string(s@.skip(i as int)) is None,
        },
{
    if i < n && s.get_char(i) == '"' {
        proof {
            lemma_skip_succ(s@, i as int);
        }
        match str_body_at(s, n, i + 1) {
            Some((v, j)) => Some((v, j)),
            None => None,
        }
    } else {
        None
    }
}

/// The executable number reader.
#[verifier::loop_isolation(false)]
fn number_at(s: &str, n: usize, i: usize) -> (r: Option<(u64, usize)>)
    requires
        n == s@.len(),
        i <= n,
    ensures
        match r {
            Some((v, j)) => i < j <= n && parse_number(s@.skip(i as int)) == Some(
                (v, (j - i) as int),
            ),
            None => parse_number(s@.skip(i as int)) is None,
        },
{
    let ghost t = s@.skip(i as int);
    let mut j = i;
    while j < n && is_digit_char(s.get_char(j))
        invariant
            i <= j <= n,
            forall|q: int| i <= q < j ==> is_digit(#[trigger] s@[q]),
        decreases n - j,
    {
        j = j + 1;
    }
    proof {
        lemma_count_digits_value(t, j - i);
    }
    if j == i {
        return None;
    }
    let k = j - i;
    let mut acc: u64 = 0;
    let mut m: usize = 0;
    while m < k
        invariant
            0 <= m <= k,
            i + k <= n,
            forall|q: int| 0 <= q < k ==> is_digit(#[trigger] t[q]),
            acc == digits_val(t.take(m as int)),
        decreases k - m,
    {
        let c = s.get_char(i + m);
        let d = (c as u32 - 48) as u64;
        proof {
            crate::text::lemma_digits_val_snoc(t.take(m as int), t[m as int]);
            assert(t.take(m as int).push(t[m as int]) =~= t.take(m + 1 as int));
        }
        let bigger = match acc.checked_mul(10) {
            Some(x) => x.checked_add(d),
            None => None,
        };
        match bigger {
            Some(y) => {
                acc = y;
            },
            None => {
                proof {
                    lemma_digits_val_mono(t, m + 1 as int, k as int);
                }
                return None;
            },
        }
        m = m + 1;
    }
    Some((acc, j))
}

/// The executable string-token reader: blanks, then a string.
fn tok_string_at(s: &str, n: usize, i: usize) -> (r: Option<(String, usize)>)
    requires
        n == s@.len(),
        i <= n,
    ensures
        match r {
            Some((v, j)) => i <= j <= n && parse_tok_string(s@.skip(i as int)) == Some(
                (v@, (j - i) as int),
            ),
            None => parse_tok_string(s@.skip(i as int)) is None,
        },
{
    let w = skip_ws_at(s, n, i);
    proof {
        lemma_skip_skip(s@, i as int, (w - i) as int);
    }
    match string_at(s, n, w) {
        Some((v, j)) => Some((v, j)),
        None => None,
    }
}

/// The executable number-token reader: blanks, then a number.
fn tok_number_at(s: &str, n: usize, i: usize) -> (r: Option<(u64, usize)>)
    requires
        n == s@.len(),
        i <= n,
    ensures
        match r {
            Some((v, j)) => i <= j <= n && parse_tok_number(s@.skip(i as int)) == Some(
                (v, (j - i) as int),
            ),
            None => parse_tok_number(s@.skip(i as int)) is None,
        },
{
    let w = skip_ws_at(s, n, i);
    proof {
        lemma_skip_skip(s@, i as int, (w - i) as int);
    }
    match number_at(s, n, w) {
        Some((v, j)) => Some((v, j)),
        None => None,
    }
}

/// The executable key reader: the given word as a string, then a
/// colon.
fn key_at(s: &str, n: usize, i: usize, key: &str) -> (r: Option<usize>)
    requires
        n == s@.len(),
        i <= n,
    ensures
        match r {
            Some(j) => i <= j <= n && parse_key(s@.skip(i as int), key@) == Some((j - i) as int),
            None => parse_key(s@.skip(i as int), key@) is None,
        },
{
    match tok_string_at(s, n, i) {
        Some((v, j1)) => {
            let expected = String::from_str(key);
            if v == expected {
                proof {
                    lemma_skip_skip(s@, i as int, (j1 - i) as int);
                }
                match tok_at(s, n, j1, ':') {
                    Some(j2) => Some(j2),
                    None => None,
                }
            } else {
                None
            }
        },
        None => None,
    }
}

/// The executable `"key": "string"` member reader.
fn member_str_at(s: &str, n: usize, i: usize, key: &str) -> (r: Option<(String, usize)>)
    requires
        n == s@.len(),
        i <= n,
    ensures
        match r {
            Some((v, j)) => i <= j <= n && parse_str_member(s@.skip(i as int), key@) == Some(
                (v@, (j - i) as int),
            ),
            None => parse_str_member(s@.skip(i as int), key@) is None,
        },
{
    match key_at(s, n, i, key) {
        Some(j1) => {
            proof {
                lemma_skip_skip(s@, i as int, (j1 - i) as int);
            }
            match tok_string_at(s, n, j1) {
                Some((v, j2)) => Some((v, j2)),
                None => None,
            }
        },
        None => None,
    }
}

/// The executable `"key": number` member reader.
fn member_number_at(s: &str, n: usize, i: usize, key: &str) -> (r: Option<(u64, usize)>)
    requires
        n == s@.len(),
        i <= n,
    ensures
        match r {
            Some((v, j)) => i <= j <= n && parse_number_member(s@.skip(i as int), key@) == Some(
                (v, (j - i) as int),
            ),
            None => parse_number_member(s@.skip(i as int), key@) is None,
        },
{
    match key_at(s, n, i, key) {
        Some(j1) => {
            proof {
                lemma_skip_skip(s@, i as int, (j1 - i) as int);
            }
            match tok_number_at(s, n, j1) {
                Some((v, j2)) => Some((v, j2)),
                None => None,
            }
        },
        None => None,
    }
}

/// The executable rating-word recogniser.
fn word_rating_of(v: &String) -> (r: Option<Rating>)
    ensures
        r == word_to_rating(v@),
{
    proof {
        reveal_strlit("one");
        reveal_strlit("two");
        reveal_strlit("three");
        reveal_strlit("four");
        reveal_strlit("five");
        assert("one"@ =~= rating_word(Rating::One));
        assert("two"@ =~= rating_word(Rating::Two));
        assert("three"@ =~= rating_word(Rating::Three));
        assert("four"@ =~= rating_word(Rating::Four));
        assert("five"@ =~= rating_word(Rating::Five));
    }
    if *v == String::from_str("one") {
        Some(Rating::One)
    } else if *v == String::from_str("two") {
        Some(Rating::Two)
    } else if *v == String::from_str("three") {
        Some(Rating::Three)
    } else if *v == String::from_str("four") {
        Some(Rating::Four)
    } else if *v == String::from_str("five") {
        Some(Rating::Five)
    } else {
        None
    }
}

/// The executable `"key": "word"` rating member reader.
fn member_rating_at(s: &str, n: usize, i: usize, key: &str) -> (r: Option<(Rating, usize)>)
    requires
        n == s@.len(),
        i <= n,
    ensures
        match r {
            Some((v, j)) => i <= j <= n && parse_rating_member(s@.skip(i as int), key@) == Some(
                (v, (j - i) as int),
            ),
            None => parse_rating_member(s@.skip(i as int), key@) is None,
        },
{
    match key_at(s, n, i, key) {
        Some(j1) => {
            proof {
                lemma_skip_skip(s@, i as int, (j1 - i) as int);
            }
            match tok_string_at(s, n, j1) {
                Some((v, j2)) => {
                    match word_rating_of(&v) {
                        Some(rt) => Some((rt, j2)),
                        None => None,
                    }
                },
                None => None,
            }
        },
        None => None,
    }
}

/// The executable record-object reader.
#[verifier::rlimit(100)]
fn game_at(s: &str, n: usize, i: usize) -> (r: Option<(Game, usize)>)
    requires
        n == s@.len(),
        i <= n,
    ensures
        match r {
            Some((g, j)) => i < j <= n && parse_game(s@.skip(i as int)) == Some(
                (g@, (j - i) as int),
            ),
            None => parse_game(s@.skip(i as int)) is None,
        },
{
    proof {
        reveal_strlit("name");
        reveal_strlit("rating");
        reveal_strlit("times_played");
        reveal_strlit("last_playthrough");
        reveal_strlit("notes");
        assert("name"@ =~= word_name());
        assert("rating"@ =~= word_rating());
        assert("times_played"@ =~= word_times_played());
        assert("last_playthrough"@ =~= word_last_playthrough());
        assert("notes"@ =~= word_notes());
    }
    let j0 = match tok_at(s, n, i, '{') {
        Some(j) => j,
        None => {
            return None;
        },
    };
    proof {
        lemma_skip_skip(s@, i as int, (j0 - i) as int);
    }
    let (name, j1) = match member_str_at(s, n, j0, "name") {
        Some(p) => p,
        None => {
            return None;
        },
    };
    proof {
        lemma_skip_skip(s@, i as int, (j1 - i) as int);
    }
    let j2 = match tok_at(s, n, j1, ',') {
        Some(j) => j,
        None => {
            return None;
        },
    };
    proof {
        lemma_skip_skip(s@, i as int, (j2 - i) as int);
    }
    let (rt, j3) = match member_rating_at(s, n, j2, "rating") {
        Some(p) => p,
        None => {
            return None;
        },
    };
    proof {
        lemma_skip_skip(s@, i as int, (j3 - i) as int);
    }
    let j4 = match tok_at(s, n, j3, ',') {
        Some(j) => j,
        None => {
            return None;
        },
    };
    proof {
        lemma_skip_skip(s@, i as int, (j4 - i) as int);
    }
    let (tp, j5) = match member_number_at(s, n, j4, "times_played") {
        Some(p) => p,
        None => {
            return None;
        },
    };
    proof {
        lemma_skip_skip(s@, i as int, (j5 - i) as int);
    }
    let j6 = match tok_at(s, n, j5, ',') {
        Some(j) => j,
        None => {
            return None;
        },
    };
    proof {
        lemma_skip_skip(s@, i as int, (j6 - i) as int);
    }
    let (lp, j7) = match member_str_at(s, n, j6, "last_playthrough") {
        Some(p) => p,
        None => {
            return None;
        },
    };
    proof {
        lemma_skip_skip(s@, i as int, (j7 - i) as int);
    }
    let j8 = match tok_at(s, n, j7, ',') {
        Some(j) => j,
        None => {
            return None;
        },
    };
    proof {
        lemma_skip_skip(s@, i as int, (j8 - i) as int);
    }
    let (nt, j9) = match member_str_at(s, n, j8, "notes") {
        Some(p) => p,
        None => {
            return None;
        },
    };
    proof {
        lemma_skip_skip(s@, i as int, (j9 - i) as int);
    }
    let j10 = match tok_at(s, n, j9, '}') {
        Some(j) => j,
        None => {
            return None;
        },
    };
    let game = Game {
        name: name,
        rating: rt,
        times_played: tp,
        last_playthrough: lp,
        notes: nt,
    };
    Some((game, j10))
}

/// The executable reader for the rest of an array after one record.
#[verifier::rlimit(100)]
fn more_games_at(s: &str, n: usize, i: usize) -> (r: Option<(Vec<Game>, usize)>)
    requires
        n == s@.len(),
        i <= n,
    ensures
        match r {
            Some((v, j)) => i < j <= n && parse_more_games(s@.skip(i as int)) == Some(
                (v.deep_view(), (j - i) as int),
            ),
            None => parse_more_games(s@.skip(i as int)) is None,
        },
    decreases n - i,
{
    match tok_at(s, n, i, ']') {
        Some(j) => {
            let out: Vec<Game> = Vec::new();
            proof {
                assert(out.deep_view() =~= Seq::<GameModel>::empty());
            }
            return Some((out, j));
        },
        None => {},
    }
    let j0 = match tok_at(s, n, i, ',') {
        Some(j) => j,
        None => {
            return None;
        },
    };
    proof {
        lemma_skip_skip(s@, i as int, (j0 - i) as int);
    }
    let (g, j1) = match game_at(s, n, j0) {
        Some(p) => p,
        None => {
            return None;
        },
    };
    proof {
        lemma_skip_skip(s@, i as int, (j1 - i) as int);
    }
    match more_games_at(s, n, j1) {
        Some((mut v, j2)) => {
            let ghost rest = v.deep_view();
            v.insert(0, g);
            proof {
                assert(v.deep_view() =~= seq![g@] + rest);
            }
            Some((v, j2))
        },
        None => None,
    }
}

/// The executable array reader.
#[verifier::rlimit(100)]
fn games_at(s: &str, n: usize, i: usize) -> (r: Option<(Vec<Game>, usize)>)
    requires
        n == s@.len(),
        i <= n,
    ensures
        match r {
            Some((v, j)) => i < j <= n && parse_games(s@.skip(i as int)) == Some(
                (v.deep_view(), (j - i) as int),
            ),
            None => parse_games(s@.skip(i as int)) is None,
        },
{
    let j0 = match tok_at(s, n, i, '[') {
        Some(j) => j,
        None => {
            return None;
        },
    };
    proof {
        lemma_skip_skip(s@, i as int, (j0 - i) as int);
    }
    let w = skip_ws_at(s, n, j0);
    if w < n && s.get_char(w) == ']' {
        let out: Vec<Game> = Vec::new();
        proof {
            assert(out.deep_view() =~= Seq::<GameModel>::empty());
        }
        return Some((out, w + 1));
    }
    let (g, j1) = match game_at(s, n, j0) {
        Some(p) => p,
        None => {
            return None;
        },
    };
    proof {
        lemma_skip_skip(s@, i as int, (j1 - i) as int);
    }
    match more_games_at(s, n, j1) {
        Some((mut v, j2)) => {
            let ghost rest = v.deep_view();
            v.insert(0, g);
            proof {
                assert(v.deep_view() =~= seq![g@] + rest);
            }
            Some((v, j2))
        },
        None => None,
    }
}

/// Reads a whole persisted store back from its JSON text.
pub fn parse_game_log(s: &str) -> (r: Option<Vec<Game>>)
    ensures
        match r {
            Some(v) => parse_store_text(s@) == Some(v.deep_view()),
            None => parse_store_text(s@) is None,
        },
{
    let n = s.unicode_len();
    proof {
        assert(s@.skip(0) =~= s@);
    }
    match games_at(s, n, 0) {
        Some((v, k)) => {
            proof {
                lemma_skip_skip(s@, 0, k as int);
            }
            let e = skip_ws_at(s, n, k);
            if e == n {
                Some(v)
            } else {
                None
            }
        },
        None => None,
    }
}

/// Renders a whole collection as the JSON array text that the store
/// persists.
#[verifier::loop_isolation(false)]
pub fn render_game_log(games: &Vec<Game>) -> (r: String)
    ensures
        r@ == render_games(games.deep_view()),
{
    let mut out = String::new();
    push_char(&mut out, '[');
    let mut i: usize = 0;
    while i < games.len()
        invariant
            i <= games.len(),
            out@ == seq!['['] + render_list_body(games.deep_view().take(i as int)),
        decreases games.len() - i,
    {
        if i > 0 {
            push_char(&mut out, ',');
        }
        write_game(&mut out, &games[i]);
        proof {
            let gs = games.deep_view();
            lemma_render_list_body_snoc(gs.take(i as int), gs[i as int]);
            assert(gs.take(i as int).push(gs[i as int]) =~= gs.take(i + 1 as int));
            assert(out@ =~= seq!['['] + render_list_body(gs.take(i + 1 as int)));
        }
        i = i + 1;
    }
    push_char(&mut out, ']');
    proof {
        assert(games.deep_view().take(games.len() as int) =~= games.deep_view());
        assert(out@ =~= render_games(games.deep_view()));
    }
    out
}

} // verus!
