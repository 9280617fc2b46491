//! A decoder for strings compressed by a static symbol table.
//!
//! The compressor replaces frequent substrings of one to eight bytes with one-byte codes from a
//! table of up to 255 symbols; code 255 is an escape marking the next byte as a literal.
//!
//! ```text
//! [u32 n_symbols]
//! [n_symbols * 8]        symbol bytes
//! [n_symbols]            symbol lengths
//! [u32 n_strings]
//! [(n_strings + 1) * 4]  u32 offsets of each compressed string in the codes region
//! [codes...]             concatenated compressed strings
//! ```

use vstd::prelude::*;
use vstd::slice::slice_subrange;

use crate::arrow::Decoded;
use crate::arrow::DecodedUtf8;
use crate::error::GuestError;
use crate::error::GuestResult;
use crate::le::read_u32;
use crate::le::stands_at;
use crate::le::u32_at;

verus! {

/// Code marking the next byte as a literal.
pub const ESCAPE: u8 = 255;

/// What decoding comes to.
#[verifier::ext_equal]
pub enum Expansion<T> {
    /// A symbol reaches beyond the table: the guest traps.
    Trap,
    /// The payload is malformed.
    Fails(GuestError),
    /// This.
    Becomes(T),
}

/// The symbol table of a payload.
#[verifier::ext_equal]
pub struct SymbolTable {
    /// The symbols' bytes, eight per symbol.
    pub symbols: Seq<u8>,
    /// The symbols' lengths.
    pub lengths: Seq<u8>,
}

impl SymbolTable {
    /// The bytes of codes `pos..end`.
    pub open spec fn expand(self, codes: Seq<u8>, pos: int, end: int) -> Expansion<Seq<u8>>
        decreases end - pos,
    {
        if pos >= end {
            Expansion::Becomes(seq![])
        } else if codes[pos] == ESCAPE {
            if pos + 1 < end {
                match self.expand(codes, pos + 2, end) {
                    Expansion::Becomes(rest) => Expansion::Becomes(seq![codes[pos + 1]] + rest),
                    other => other,
                }
            } else {
                Expansion::Fails(GuestError::of("fsst escape at end of compressed string"))
            }
        } else if codes[pos] >= self.lengths.len() {
            Expansion::Fails(GuestError::of("fsst code outside symbol table"))
        } else {
            let code = codes[pos] as int;
            let len = self.lengths[code] as int;
            if code * 8 + len > self.symbols.len() {
                Expansion::Trap
            } else {
                match self.expand(codes, pos + 1, end) {
                    Expansion::Becomes(rest) => Expansion::Becomes(
                        self.symbols.subrange(code * 8, code * 8 + len) + rest,
                    ),
                    other => other,
                }
            }
        }
    }

    /// The bytes of the first `n` strings and their offsets, given where each stands in the codes.
    pub open spec fn strings(self, bounds: Seq<u8>, codes: Seq<u8>, n: nat) -> Expansion<
        (Seq<u8>, Seq<i32>),
    >
        decreases n,
    {
        if n == 0 {
            Expansion::Becomes((seq![], seq![0i32]))
        } else {
            match self.strings(bounds, codes, (n - 1) as nat) {
                Expansion::Becomes((values, offsets)) => {
                    let start = u32_at(bounds, (n - 1) * 4) as int;
                    let end = u32_at(bounds, n as int * 4) as int;
                    if start <= end && end <= codes.len() {
                        match self.expand(codes, start, end) {
                            Expansion::Becomes(bytes) => Expansion::Becomes(
                                (
                                    values + bytes,
                                    offsets.push((values.len() + bytes.len()) as usize as i32),
                                ),
                            ),
                            Expansion::Fails(error) => Expansion::Fails(error),
                            Expansion::Trap => Expansion::Trap,
                        }
                    } else {
                        Expansion::Fails(GuestError::of("fsst code offsets out of bounds"))
                    }
                },
                other => other,
            }
        }
    }
}

/// What a payload decodes to: the strings' bytes and offsets.
pub open spec fn decode_spec(input: Seq<u8>) -> Expansion<(Seq<u8>, Seq<i32>)> {
    if input.len() < 4 {
        Expansion::Fails(GuestError::of("fsst payload too short for symbol count"))
    } else {
        let n_symbols = u32_at(input, 0) as int;
        let table_end = 4 + n_symbols * 9;
        if n_symbols > 255 {
            Expansion::Fails(GuestError::of("fsst symbol table too large"))
        } else if input.len() < table_end + 4 {
            Expansion::Fails(GuestError::of("fsst payload too short for symbol table"))
        } else {
            let n_strings = u32_at(input, table_end) as int;
            let codes_start = table_end + 4 + (n_strings + 1) * 4;
            if input.len() < codes_start {
                Expansion::Fails(GuestError::of("fsst payload too short for string offsets"))
            } else {
                let table = SymbolTable {
                    symbols: input.subrange(4, 4 + n_symbols * 8),
                    lengths: input.subrange(4 + n_symbols * 8, table_end),
                };
                table.strings(
                    input.subrange(table_end + 4, codes_start),
                    input.skip(codes_start),
                    n_strings as nat,
                )
            }
        }
    }
}

/// A string that does not decode decides for the whole payload.
proof fn lemma_strings_stopped(
    table: SymbolTable,
    bounds: Seq<u8>,
    codes: Seq<u8>,
    n: nat,
    m: nat,
)
    requires
        n <= m,
        !(table.strings(bounds, codes, n) is Becomes),
    ensures
        table.strings(bounds, codes, m) == table.strings(bounds, codes, n),
    decreases m,
{
    if n < m {
        lemma_strings_stopped(table, bounds, codes, n, (m - 1) as nat);
    }
}

/// One step of a compressor.
pub enum Token {
    /// The symbol with this code.
    Symbol(u8),
    /// This byte, as it is.
    Literal(u8),
}

impl Token {
    /// Whether the token can be written with this dictionary.
    pub open spec fn known(self, dictionary: Seq<Seq<u8>>) -> bool {
        match self {
            Token::Symbol(code) => code < dictionary.len(),
            Token::Literal(_) => true,
        }
    }

    /// The bytes that the token stands for.
    pub open spec fn text(self, dictionary: Seq<Seq<u8>>) -> Seq<u8> {
        match self {
            Token::Symbol(code) => dictionary[code as int],
            Token::Literal(byte) => seq![byte],
        }
    }

    /// The codes that the token is written as.
    pub open spec fn codes(self) -> Seq<u8> {
        match self {
            Token::Symbol(code) => seq![code],
            Token::Literal(byte) => seq![255u8, byte],
        }
    }
}

/// Whether every token can be written with this dictionary.
pub open spec fn all_known(tokens: Seq<Token>, dictionary: Seq<Seq<u8>>) -> bool {
    forall|i: int| 0 <= i < tokens.len() ==> (#[trigger] tokens[i]).known(dictionary)
}

/// The text that the tokens split.
pub open spec fn text_of(tokens: Seq<Token>, dictionary: Seq<Seq<u8>>) -> Seq<u8>
    decreases tokens.len(),
{
    if tokens.len() == 0 {
        seq![]
    } else {
        tokens[0].text(dictionary) + text_of(tokens.drop_first(), dictionary)
    }
}

/// The compressed text: the codes of the tokens, one after the other.
pub open spec fn codes_of(tokens: Seq<Token>) -> Seq<u8>
    decreases tokens.len(),
{
    if tokens.len() == 0 {
        seq![]
    } else {
        tokens[0].codes() + codes_of(tokens.drop_first())
    }
}

/// Whether the table holds the dictionary: at most 255 symbols of one to eight bytes, each at the
/// start of its eight bytes.
pub open spec fn holds_dictionary(table: SymbolTable, dictionary: Seq<Seq<u8>>) -> bool {
    &&& dictionary.len() <= 255
    &&& table.lengths.len() == dictionary.len()
    &&& table.symbols.len() == 8 * dictionary.len()
    &&& forall|c: int|
        0 <= c < dictionary.len() ==> 1 <= (#[trigger] dictionary[c]).len() <= 8
            && table.lengths[c] == dictionary[c].len()
    &&& forall|c: int, j: int|
        0 <= c < dictionary.len() && 0 <= j < dictionary[c].len() ==> table.symbols[8 * c + j]
            == #[trigger] dictionary[c][j]
}

/// Whatever way a text is split into symbols and literals, the compressed text expands to it.
pub proof fn law_expand_round_trip(
    table: SymbolTable,
    dictionary: Seq<Seq<u8>>,
    tokens: Seq<Token>,
    codes: Seq<u8>,
    pos: int,
    end: int,
)
    requires
        holds_dictionary(table, dictionary),
        all_known(tokens, dictionary),
        0 <= pos <= end <= codes.len(),
        codes.subrange(pos, end) == codes_of(tokens),
    ensures
        table.expand(codes, pos, end) == Expansion::Becomes(text_of(tokens, dictionary)),
    decreases tokens.len(),
{
    let part = codes.subrange(pos, end);
    assert(part.len() == end - pos);
    if tokens.len() == 0 {
        assert(codes_of(tokens).len() == 0);
        assert(table.expand(codes, pos, end) == Expansion::Becomes(Seq::<u8>::empty()));
    } else {
        let rest = tokens.drop_first();
        let width = tokens[0].codes().len() as int;
        assert(tokens[0].known(dictionary));
        assert(all_known(rest, dictionary)) by {
            assert forall|i: int| 0 <= i < rest.len() implies (#[trigger] rest[i]).known(
                dictionary,
            ) by {
                assert(rest[i] == tokens[i + 1]);
            }
        }
        assert(part.len() == width + codes_of(rest).len());
        assert(codes.subrange(pos + width, end) =~= codes_of(rest)) by {
            assert(part.subrange(width, part.len() as int) =~= codes_of(rest));
            assert(part.subrange(width, part.len() as int) =~= codes.subrange(pos + width, end));
        }
        law_expand_round_trip(table, dictionary, rest, codes, pos + width, end);
        assert(codes[pos] == part[0]);
        assert(text_of(tokens, dictionary) == tokens[0].text(dictionary) + text_of(
            rest,
            dictionary,
        ));
        match tokens[0] {
            Token::Symbol(code) => {
                let c = code as int;
                let len = table.lengths[c] as int;
                assert(len == dictionary[c].len());
                assert(table.symbols.subrange(c * 8, c * 8 + len) =~= dictionary[c]) by {
                    assert forall|j: int| 0 <= j < len implies table.symbols.subrange(
                        c * 8,
                        c * 8 + len,
                    )[j] == #[trigger] dictionary[c][j] by {
                        assert(table.symbols[8 * c + j] == dictionary[c][j]);
                    }
                }
                assert(part[0] == code);
                assert(table.expand(codes, pos, end) == Expansion::Becomes(
                    dictionary[c] + text_of(rest, dictionary),
                ));
            },
            Token::Literal(byte) => {
                assert(codes[pos + 1] == part[1]);
                assert(part[0] == 255 && part[1] == byte);
                assert(table.expand(codes, pos, end) == Expansion::Becomes(
                    seq![byte] + text_of(rest, dictionary),
                ));
            },
        }
    }
}

/// Only a compressed text expands: what codes expand to is the text that some split of it into
/// symbols and literals compresses to those codes.
pub proof fn law_expand_is_compressed(
    table: SymbolTable,
    dictionary: Seq<Seq<u8>>,
    codes: Seq<u8>,
    pos: int,
    end: int,
) -> (tokens: Seq<Token>)
    requires
        holds_dictionary(table, dictionary),
        0 <= pos <= end <= codes.len(),
        table.expand(codes, pos, end) is Becomes,
    ensures
        all_known(tokens, dictionary),
        codes_of(tokens) == codes.subrange(pos, end),
        table.expand(codes, pos, end) == Expansion::Becomes(text_of(tokens, dictionary)),
    decreases end - pos,
{
    if pos >= end {
        let tokens: Seq<Token> = seq![];
        assert(codes.subrange(pos, end) =~= codes_of(tokens));
        tokens
    } else {
        let first = if codes[pos] == 255 {
            Token::Literal(codes[pos + 1])
        } else {
            Token::Symbol(codes[pos])
        };
        let width = first.codes().len() as int;
        let rest = law_expand_is_compressed(table, dictionary, codes, pos + width, end);
        let tokens = seq![first] + rest;
        assert(tokens.drop_first() =~= rest);
        assert(codes_of(tokens) =~= codes.subrange(pos, end));
        assert forall|i: int| 0 <= i < tokens.len() implies (#[trigger] tokens[i]).known(
            dictionary,
        ) by {
            if i > 0 {
                assert(rest[i - 1].known(dictionary));
            }
        }
        law_expand_round_trip(table, dictionary, tokens, codes, pos, end);
        tokens
    }
}

/// How many bytes codes `pos..end` expand to: the length of the symbol for every code, and one for
/// every escaped byte.
pub open spec fn expanded_len(lengths: Seq<u8>, codes: Seq<u8>, pos: int, end: int) -> int
    decreases end - pos,
{
    if pos >= end {
        0
    } else if codes[pos] == 255 {
        if pos + 1 < end {
            1 + expanded_len(lengths, codes, pos + 2, end)
        } else {
            0
        }
    } else {
        lengths[codes[pos] as int] + expanded_len(lengths, codes, pos + 1, end)
    }
}

/// Codes expand to as many bytes as their symbols and escaped bytes have.
pub proof fn law_expanded_len(table: SymbolTable, codes: Seq<u8>, pos: int, end: int)
    ensures
        match table.expand(codes, pos, end) {
            Expansion::Becomes(bytes) => bytes.len() == expanded_len(
                table.lengths,
                codes,
                pos,
                end,
            ),
            _ => true,
        },
    decreases end - pos,
{
    if pos < end {
        if codes[pos] == 255 {
            if pos + 1 < end {
                law_expanded_len(table, codes, pos + 2, end);
            }
        } else {
            law_expanded_len(table, codes, pos + 1, end);
        }
    }
}

/// Where the codes region of a payload starts, given its numbers of symbols and strings.
pub open spec fn codes_region(n_symbols: int, n_strings: int) -> int {
    4 + 9 * n_symbols + 4 + 4 * (n_strings + 1)
}

/// Where the compressed string `k` starts in the codes region of a payload.
pub open spec fn code_offset(payload: Seq<u8>, n_symbols: int, k: int) -> int {
    u32_at(payload, 4 + 9 * n_symbols + 4 + 4 * k) as int
}

/// Whether a payload is laid out for a dictionary and strings split into tokens.
pub open spec fn is_payload(
    payload: Seq<u8>,
    dictionary: Seq<Seq<u8>>,
    strings: Seq<Seq<Token>>,
) -> bool {
    let n = dictionary.len() as int;
    let region = codes_region(n, strings.len() as int);
    &&& n <= 255
    &&& region <= payload.len()
    &&& u32_at(payload, 0) == n
    &&& forall|c: int|
        0 <= c < n ==> 1 <= (#[trigger] dictionary[c]).len() <= 8 && payload[4 + 8 * n + c]
            == dictionary[c].len()
    &&& forall|c: int, j: int|
        0 <= c < n && 0 <= j < dictionary[c].len() ==> payload[4 + 8 * c + j]
            == #[trigger] dictionary[c][j]
    &&& u32_at(payload, 4 + 9 * n) == strings.len()
    &&& forall|k: int|
        0 <= k < strings.len() ==> {
            let start = code_offset(payload, n, k);
            let codes = codes_of(#[trigger] strings[k]);
            &&& all_known(strings[k], dictionary)
            &&& code_offset(payload, n, k + 1) == start + codes.len()
            &&& stands_at(payload, region + start, codes)
        }
}

/// The number of bytes of the first `k` texts.
pub open spec fn text_len(strings: Seq<Seq<Token>>, dictionary: Seq<Seq<u8>>, k: int) -> int
    decreases k,
{
    if k <= 0 {
        0
    } else {
        text_len(strings, dictionary, k - 1) + text_of(strings[k - 1], dictionary).len()
    }
}

/// Whether values and offsets hold text `k`.
pub open spec fn holds_text(
    values: Seq<u8>,
    offsets: Seq<i32>,
    k: int,
    text: Seq<u8>,
) -> bool {
    &&& 0 <= offsets[k] <= offsets[k + 1] <= values.len()
    &&& values.subrange(offsets[k] as int, offsets[k + 1] as int) == text
}

/// Whether values and offsets hold the first `n` texts, one after the other.
pub open spec fn holds_texts(
    values: Seq<u8>,
    offsets: Seq<i32>,
    strings: Seq<Seq<Token>>,
    dictionary: Seq<Seq<u8>>,
    n: int,
) -> bool {
    &&& offsets.len() == n + 1
    &&& offsets[0] == 0
    &&& offsets[n] == values.len()
    &&& forall|k: int|
        0 <= k < n ==> holds_text(
            values,
            offsets,
            k,
            text_of(#[trigger] strings[k], dictionary),
        )
}

/// The table of a payload holds its dictionary.
proof fn lemma_payload_table(
    payload: Seq<u8>,
    dictionary: Seq<Seq<u8>>,
    strings: Seq<Seq<Token>>,
    table: SymbolTable,
)
    requires
        is_payload(payload, dictionary, strings),
        table == (SymbolTable {
            symbols: payload.subrange(4, 4 + dictionary.len() as int * 8),
            lengths: payload.subrange(
                4 + dictionary.len() as int * 8,
                4 + dictionary.len() as int * 9,
            ),
        }),
    ensures
        holds_dictionary(table, dictionary),
{
    let n = dictionary.len() as int;
    assert forall|c: int, j: int| 0 <= c < n && 0 <= j < dictionary[c].len() implies table.symbols[8
        * c + j] == #[trigger] dictionary[c][j] by {
        assert(payload[4 + 8 * c + j] == dictionary[c][j]);
        assert(1 <= dictionary[c].len() <= 8);
    }
}

/// A payload decodes to the strings that were compressed into it, whatever the symbols are and
/// however the strings were split.
pub proof fn law_decode_round_trip(
    payload: Seq<u8>,
    dictionary: Seq<Seq<u8>>,
    strings: Seq<Seq<Token>>,
)
    requires
        is_payload(payload, dictionary, strings),
        text_len(strings, dictionary, strings.len() as int) <= i32::MAX,
    ensures
        match decode_spec(payload) {
            Expansion::Becomes((values, offsets)) => holds_texts(
                values,
                offsets,
                strings,
                dictionary,
                strings.len() as int,
            ),
            _ => false,
        },
{
    let n = dictionary.len() as int;
    let table_end = 4 + n * 9;
    let region = codes_region(n, strings.len() as int);
    let table = SymbolTable {
        symbols: payload.subrange(4, 4 + n * 8),
        lengths: payload.subrange(4 + n * 8, table_end),
    };
    lemma_payload_table(payload, dictionary, strings, table);
    lemma_strings_round_trip(
        table,
        dictionary,
        payload,
        strings,
        strings.len(),
    );
}

/// The first strings of a payload decode to the first texts.
proof fn lemma_strings_round_trip(
    table: SymbolTable,
    dictionary: Seq<Seq<u8>>,
    payload: Seq<u8>,
    strings: Seq<Seq<Token>>,
    m: nat,
)
    requires
        is_payload(payload, dictionary, strings),
        holds_dictionary(table, dictionary),
        m <= strings.len(),
        text_len(strings, dictionary, m as int) <= i32::MAX,
    ensures
        ({
            let n = dictionary.len() as int;
            let region = codes_region(n, strings.len() as int);
            let bounds = payload.subrange(4 + n * 9 + 4, region);
            match table.strings(bounds, payload.skip(region), m) {
                Expansion::Becomes((values, offsets)) => {
                    &&& holds_texts(values, offsets, strings, dictionary, m as int)
                    &&& values.len() == text_len(strings, dictionary, m as int)
                },
                _ => false,
            }
        }),
    decreases m,
{
    let n = dictionary.len() as int;
    let region = codes_region(n, strings.len() as int);
    let bounds = payload.subrange(4 + n * 9 + 4, region);
    let codes = payload.skip(region);
    if m > 0 {
        let k = m - 1;
        lemma_strings_round_trip(table, dictionary, payload, strings, k as nat);
        let tokens = strings[k];
        let text = text_of(tokens, dictionary);
        let start = code_offset(payload, n, k);
        let end = code_offset(payload, n, k + 1);
        assert(u32_at(bounds, k * 4) == start && u32_at(bounds, m as int * 4) == end) by {
            reveal(u32_at);
        }
        assert(stands_at(payload, region + start, codes_of(tokens)));
        assert(codes.subrange(start, end) =~= codes_of(tokens)) by {
            assert(payload.subrange(region + start, region + end) =~= codes_of(tokens));
            assert(codes.subrange(start, end) =~= payload.subrange(region + start, region + end));
        }
        law_expand_round_trip(table, dictionary, tokens, codes, start, end);
        if let Expansion::Becomes((before, offsets)) = table.strings(bounds, codes, k as nat) {
            let values = before + text;
            let more = offsets.push(values.len() as i32);
            assert forall|i: int| 0 <= i < m implies holds_text(
                values,
                more,
                i,
                text_of(#[trigger] strings[i], dictionary),
            ) by {
                if i < k {
                    assert(holds_text(before, offsets, i, text_of(strings[i], dictionary)));
                    assert(offsets[i] == more[i] && offsets[i + 1] == more[i + 1]);
                    assert(values.subrange(more[i] as int, more[i + 1] as int) =~= before.subrange(
                        offsets[i] as int,
                        offsets[i + 1] as int,
                    ));
                } else {
                    assert(values.subrange(more[i] as int, more[i + 1] as int) =~= text);
                }
            }
            assert(holds_texts(values, more, strings, dictionary, m as int));
        }
    }
}

/// A table whose symbols have at most eight bytes never traps the guest.
pub proof fn law_expand_never_traps(table: SymbolTable, codes: Seq<u8>, pos: int, end: int)
    requires
        table.symbols.len() == 8 * table.lengths.len(),
        forall|c: int| 0 <= c < table.lengths.len() ==> #[trigger] table.lengths[c] <= 8,
    ensures
        !(table.expand(codes, pos, end) is Trap),
    decreases end - pos,
{
    if pos < end {
        if codes[pos] == 255 {
            if pos + 1 < end {
                law_expand_never_traps(table, codes, pos + 2, end);
            }
        } else {
            law_expand_never_traps(table, codes, pos + 1, end);
        }
    }
}

/// Only a whole payload decodes: it has at most 255 symbols, room for its tables, and every string
/// of it is inside the codes region.
pub proof fn law_decode_accepts(payload: Seq<u8>, k: int)
    requires
        decode_spec(payload) is Becomes,
    ensures
        4 <= payload.len(),
        ({
            let n = u32_at(payload, 0) as int;
            let m = u32_at(payload, 4 + 9 * n) as int;
            &&& n <= 255
            &&& codes_region(n, m) <= payload.len()
            &&& 0 <= k < m ==> code_offset(payload, n, k) <= code_offset(payload, n, k + 1)
                <= payload.len() - codes_region(n, m)
        }),
{
    let n = u32_at(payload, 0) as int;
    let m = u32_at(payload, 4 + 9 * n) as int;
    let region = codes_region(n, m);
    let table = SymbolTable {
        symbols: payload.subrange(4, 4 + n * 8),
        lengths: payload.subrange(4 + n * 8, 4 + n * 9),
    };
    let bounds = payload.subrange(4 + n * 9 + 4, region);
    let codes = payload.skip(region);
    if 0 <= k < m {
        if !(table.strings(bounds, codes, (k + 1) as nat) is Becomes) {
            lemma_strings_stopped(table, bounds, codes, (k + 1) as nat, m as nat);
        }
        assert(u32_at(bounds, k * 4) == code_offset(payload, n, k) && u32_at(bounds, (k + 1) * 4)
            == code_offset(payload, n, k + 1)) by {
            reveal(u32_at);
        }
    }
}

/// Append the bytes of codes `start..end` to `values`; `None` for a trap.
fn expand_string(
    symbols: &[u8],
    lengths: &[u8],
    codes: &[u8],
    start: usize,
    end: usize,
    values: &mut Vec<u8>,
) -> (result: Option<GuestResult<()>>)
    requires
        start <= end <= codes@.len(),
        lengths@.len() <= 255,
        symbols@.len() == 8 * lengths@.len(),
    ensures
        ({
            let table = SymbolTable { symbols: symbols@, lengths: lengths@ };
            match table.expand(codes@, start as int, end as int) {
                Expansion::Trap => result is None,
                Expansion::Fails(error) => result == Some(Err::<(), GuestError>(error)),
                Expansion::Becomes(bytes) => result == Some(Ok::<(), GuestError>(()))
                    && final(values)@ == old(values)@ + bytes,
            }
        }),
{
    let ghost table = SymbolTable { symbols: symbols@, lengths: lengths@ };
    let ghost whole = table.expand(codes@, start as int, end as int);
    let ghost before = values@;
    let ghost mut so_far: Seq<u8> = seq![];
    let mut pos: usize = start;
    assert(values@ =~= before + so_far);
    proof {
        if let Expansion::Becomes(rest) = table.expand(codes@, pos as int, end as int) {
            assert(so_far + rest =~= rest);
        }
    }
    while pos < end
        invariant
            pos <= end <= codes@.len(),
            lengths@.len() <= 255,
            symbols@.len() == 8 * lengths@.len(),
            table == (SymbolTable { symbols: symbols@, lengths: lengths@ }),
            whole == table.expand(codes@, start as int, end as int),
            values@ == before + so_far,
            match table.expand(codes@, pos as int, end as int) {
                Expansion::Becomes(rest) => whole == Expansion::Becomes(so_far + rest),
                other => whole == other,
            },
        decreases end - pos,
    {
        let code: u8 = codes[pos];
        if code == ESCAPE {
            if end - pos < 2 {
                return Some(
                    Err(GuestError::new("fsst escape at end of compressed string")),
                );
            }
            let literal: u8 = codes[pos + 1];
            values.push(literal);
            proof {
                if let Expansion::Becomes(rest) = table.expand(codes@, pos + 2, end as int) {
                    assert(so_far + (seq![literal] + rest) =~= so_far.push(literal) + rest);
                }
                so_far = so_far.push(literal);
                assert(values@ =~= before + so_far);
            }
            pos = pos + 2;
        } else {
            let code: usize = code as usize;
            if code >= lengths.len() {
                return Some(Err(GuestError::new("fsst code outside symbol table")));
            }
            let len: usize = lengths[code] as usize;
            if code * 8 + len > symbols.len() {
                return None;
            }
            let symbol: &[u8] = slice_subrange(symbols, code * 8, code * 8 + len);
            values.extend_from_slice(symbol);
            proof {
                let piece = symbols@.subrange(code * 8, code * 8 + len);
                if let Expansion::Becomes(rest) = table.expand(codes@, pos + 1, end as int) {
                    assert(so_far + (piece + rest) =~= (so_far + piece) + rest);
                }
                assert(symbol@ == piece);
                so_far = so_far + piece;
                assert(values@ =~= before + so_far);
            }
            pos = pos + 1;
        }
    }
    assert(so_far + Seq::<u8>::empty() =~= so_far);
    Some(Ok(()))
}

/// Decode a payload into a string array; `None` for a trap.
pub fn decode(input: &[u8]) -> (result: Option<GuestResult<Decoded>>)
    ensures
        match decode_spec(input@) {
            Expansion::Trap => result is None,
            Expansion::Fails(error) => result == Some(Err::<Decoded, GuestError>(error)),
            Expansion::Becomes((values, offsets)) => result matches Some(Ok(Decoded::Utf8(strings)))
                && strings.values@ == values && strings.offsets@ == offsets && strings.len + 1
                == offsets.len() && strings.validity is None && !strings.nullable,
        },
{
    if input.len() < 4 {
        return Some(Err(GuestError::new("fsst payload too short for symbol count")));
    }
    let n_symbols: usize = read_u32(input, 0) as usize;
    if n_symbols > 255 {
        return Some(Err(GuestError::new("fsst symbol table too large")));
    }
    let table_end: usize = 4 + n_symbols * 9;
    if input.len() < table_end + 4 {
        return Some(Err(GuestError::new("fsst payload too short for symbol table")));
    }
    let n_strings: u32 = read_u32(input, table_end);
    let codes_start: u64 = table_end as u64 + 4 + (n_strings as u64 + 1) * 4;
    if (input.len() as u64) < codes_start {
        return Some(Err(GuestError::new("fsst payload too short for string offsets")));
    }
    let codes_start: usize = codes_start as usize;
    let n_strings: usize = n_strings as usize;
    let symbols: &[u8] = slice_subrange(input, 4, 4 + n_symbols * 8);
    let lengths: &[u8] = slice_subrange(input, 4 + n_symbols * 8, table_end);
    let bounds: &[u8] = slice_subrange(input, table_end + 4, codes_start);
    let codes: &[u8] = slice_subrange(input, codes_start, input.len());
    let ghost table = SymbolTable { symbols: symbols@, lengths: lengths@ };
    assert(codes@ =~= input@.skip(codes_start as int));
    let mut values: Vec<u8> = Vec::new();
    let mut offsets: Vec<i32> = Vec::new();
    offsets.push(0);
    let mut i: usize = 0;
    assert(offsets@ =~= seq![0i32]);
    while i < n_strings
        invariant
            i <= n_strings,
            bounds@.len() == (n_strings + 1) * 4,
            lengths@.len() <= 255,
            symbols@.len() == 8 * lengths@.len(),
            table == (SymbolTable { symbols: symbols@, lengths: lengths@ }),
            decode_spec(input@) == table.strings(bounds@, codes@, n_strings as nat),
            table.strings(bounds@, codes@, i as nat) == Expansion::Becomes((values@, offsets@)),
            offsets@.len() == i + 1,
        decreases n_strings - i,
    {
        proof {
            if !(table.strings(bounds@, codes@, (i + 1) as nat) is Becomes) {
                lemma_strings_stopped(
                    table,
                    bounds@,
                    codes@,
                    (i + 1) as nat,
                    n_strings as nat,
                );
            }
        }
        assert(bounds.len() <= usize::MAX);
        let start: usize = read_u32(bounds, i * 4) as usize;
        let end: usize = read_u32(bounds, (i + 1) * 4) as usize;
        if !(start <= end && end <= codes.len()) {
            return Some(Err(GuestError::new("fsst code offsets out of bounds")));
        }
        match expand_string(symbols, lengths, codes, start, end, &mut values) {
            None => return None,
            Some(Err(error)) => return Some(Err(error)),
            Some(Ok(())) => {},
        }
        offsets.push(values.len() as i32);
        i = i + 1;
    }
    Some(
        Ok(
            Decoded::Utf8(
                DecodedUtf8 { len: n_strings, nullable: false, offsets, values, validity: None },
            ),
        ),
    )
}

} // verus!
