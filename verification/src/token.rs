//! A tokenizer for the textual form of queries.
//!
//! A text is taken as a row of words, apart at spaces. A word that reads
//! `SELECT`, in any case of letters, starts a selection: the second word
//! after it must read `FROM`, the third names the table, and if the fourth
//! reads `WHERE`, the fifth is a condition of the form `key=value`. All
//! words are compared and cut as bytes.

use vstd::prelude::*;
use vstd::string::StringSliceAdditionalSpecFns;
use vstd::utf8::{
    encode_utf8, encode_utf8_valid_utf8, is_char_boundary,
    is_char_boundary_iff_not_is_continuation_byte, is_char_boundary_start_end_of_seq,
    valid_utf8_split,
};

verus! {

/// What is reported where a selection names no table.
pub const NO_TABLE: &'static str = "Parse error: no tables specified";

/// What is reported where `WHERE` is followed by no condition of the form
/// `key=value`.
pub const NO_CONDITION: &'static str = "Parse error: no condition specified";

/// The byte of a space.
pub const SPACE: u8 = 0x20;

/// The byte of an equals sign.
pub const EQUALS: u8 = 0x3d;

/// A condition: a key and the value that it is to have.
#[derive(Debug)]
pub struct Where {
    pub key: String,
    pub value: String,
}

/// The keywords, each with what belongs to it.
#[derive(Debug)]
pub enum Keywords {
    Select { from: String, condition: Option<Where> },
}

/// A token.
#[derive(Debug)]
pub enum Token {
    Keywords(Keywords),
    String(String),
}

/// What a token holds, as bytes.
pub enum TokenView {
    Select { from: Seq<u8>, condition: Option<(Seq<u8>, Seq<u8>)> },
    Text(Seq<u8>),
}

impl View for Where {
    type V = (Seq<u8>, Seq<u8>);

    open spec fn view(&self) -> (Seq<u8>, Seq<u8>) {
        (encode_utf8(self.key@), encode_utf8(self.value@))
    }
}

impl View for Token {
    type V = TokenView;

    open spec fn view(&self) -> TokenView {
        match self {
            Token::Keywords(Keywords::Select { from, condition }) => TokenView::Select {
                from: encode_utf8(from@),
                condition: match condition {
                    Some(w) => Some(w@),
                    None => None,
                },
            },
            Token::String(s) => TokenView::Text(encode_utf8(s@)),
        }
    }
}

/// Why a text is refused.
pub enum Fault {
    NoTable,
    NoCondition,
}

/// The number of bytes before the first byte `b`, or the length where there
/// is none.
pub open spec fn run(bytes: Seq<u8>, b: u8) -> int
    decreases bytes.len(),
{
    if bytes.len() == 0 || bytes[0] == b {
        0
    } else {
        1 + run(bytes.skip(1), b)
    }
}

/// The words of a text: the longest rows of bytes without a space, in order.
pub open spec fn words(bytes: Seq<u8>) -> Seq<Seq<u8>>
    decreases bytes.len(),
{
    if bytes.len() == 0 {
        Seq::empty()
    } else if bytes[0] == SPACE {
        words(bytes.skip(1))
    } else {
        proof {
            lemma_run_bound(bytes.skip(1), SPACE);
        }
        seq![bytes.take(run(bytes, SPACE))] + words(bytes.skip(run(bytes, SPACE)))
    }
}

/// A byte with a small letter made a capital letter.
pub open spec fn capital(b: u8) -> u8 {
    if 0x61 <= b <= 0x7a {
        (b - 0x20) as u8
    } else {
        b
    }
}

/// Whether a word reads as a keyword, whatever the case of its letters.
pub open spec fn reads(word: Seq<u8>, keyword: Seq<u8>) -> bool {
    word.len() == keyword.len() && forall|i: int|
        0 <= i < word.len() ==> capital(#[trigger] word[i]) == keyword[i]
}

/// `SELECT`.
pub open spec fn select_word() -> Seq<u8> {
    seq![0x53u8, 0x45u8, 0x4cu8, 0x45u8, 0x43u8, 0x54u8]
}

/// `FROM`.
pub open spec fn from_word() -> Seq<u8> {
    seq![0x46u8, 0x52u8, 0x4fu8, 0x4du8]
}

/// `WHERE`.
pub open spec fn where_word() -> Seq<u8> {
    seq![0x57u8, 0x48u8, 0x45u8, 0x52u8, 0x45u8]
}

/// The condition that a word of the form `key=value` states: what is before
/// the first equals sign, and what is after it.
pub open spec fn condition_of(word: Seq<u8>) -> (Seq<u8>, Seq<u8>) {
    (word.take(run(word, EQUALS)), word.skip(run(word, EQUALS) + 1))
}

/// The selection that starts with the word at `i`.
pub open spec fn select_at(ws: Seq<Seq<u8>>, i: int) -> Result<TokenView, Fault> {
    if i + 3 >= ws.len() || !reads(ws[i + 2], from_word()) {
        Err(Fault::NoTable)
    } else if i + 4 < ws.len() && reads(ws[i + 4], where_word()) {
        if i + 5 >= ws.len() || run(ws[i + 5], EQUALS) >= ws[i + 5].len() {
            Err(Fault::NoCondition)
        } else {
            Ok(TokenView::Select { from: ws[i + 3], condition: Some(condition_of(ws[i + 5])) })
        }
    } else {
        Ok(TokenView::Select { from: ws[i + 3], condition: None })
    }
}

/// The tokens of the words from the `i`-th on: one selection for each word
/// that reads `SELECT`, or the fault of the first selection that is not
/// well formed.
pub open spec fn tokens_from(ws: Seq<Seq<u8>>, i: int) -> Result<Seq<TokenView>, Fault>
    decreases ws.len() - i,
{
    if i < 0 || i >= ws.len() {
        Ok(Seq::empty())
    } else if !reads(ws[i], select_word()) {
        tokens_from(ws, i + 1)
    } else {
        match select_at(ws, i) {
            Err(f) => Err(f),
            Ok(token) => match tokens_from(ws, i + 1) {
                Err(f) => Err(f),
                Ok(rest) => Ok(seq![token] + rest),
            },
        }
    }
}

/// The views of tokens.
pub open spec fn views(tokens: Seq<Token>) -> Seq<TokenView> {
    Seq::new(tokens.len(), |i: int| tokens[i]@)
}

/// What found tokens and the tokens still to come make together.
pub open spec fn joined(done: Seq<TokenView>, rest: Result<Seq<TokenView>, Fault>) -> Result<
    Seq<TokenView>,
    Fault,
> {
    match rest {
        Ok(more) => Ok(done + more),
        Err(f) => Err(f),
    }
}

/// The part of the text before byte `end`, where a space, an equals sign or
/// the end of the text is.
fn before(text: &str, end: usize) -> (r: &str)
    requires
        end <= text.spec_bytes().len(),
        end < text.spec_bytes().len() ==> text.spec_bytes()[end as int] < 0x80,
    ensures
        r.spec_bytes() == text.spec_bytes().subrange(0, end as int),
{
    proof {
        encode_utf8_valid_utf8(text@);
        if end < text.spec_bytes().len() {
            is_char_boundary_iff_not_is_continuation_byte(text.spec_bytes(), end as int);
        } else {
            is_char_boundary_start_end_of_seq(text.spec_bytes());
        }
    }
    let (head, _) = text.split_at(end);
    head
}

/// The part of the text after byte `at`, which is a space or an equals sign.
fn after(text: &str, at: usize) -> (r: &str)
    requires
        at < text.spec_bytes().len(),
        text.spec_bytes()[at as int] < 0x80,
    ensures
        r.spec_bytes() == text.spec_bytes().subrange(at + 1, text.spec_bytes().len() as int),
{
    proof {
        encode_utf8_valid_utf8(text@);
        is_char_boundary_iff_not_is_continuation_byte(text.spec_bytes(), at as int);
    }
    let (_, tail) = text.split_at(at);
    proof {
        valid_utf8_split(text.spec_bytes(), at as int);
        assert(tail.spec_bytes()[0] == text.spec_bytes()[at as int]);
        encode_utf8_valid_utf8(tail@);
        reveal_with_fuel(is_char_boundary, 2);
        assert(is_char_boundary(tail.spec_bytes(), 1));
    }
    let (_, rest) = tail.split_at(1);
    proof {
        assert(rest.spec_bytes() =~= text.spec_bytes().subrange(
            at + 1,
            text.spec_bytes().len() as int,
        ));
    }
    rest
}

/// The number of bytes from `from` on before the first byte `b`.
fn run_from(bytes: &[u8], from: usize, b: u8) -> (n: usize)
    requires
        from <= bytes@.len(),
    ensures
        n == run(bytes@.skip(from as int), b),
        from + n <= bytes@.len(),
        from + n < bytes@.len() ==> bytes@[from + n] == b,
{
    let mut j: usize = from;
    proof {
        lemma_run_bound(bytes@.skip(from as int), b);
    }
    while j < bytes.len() && bytes[j] != b
        invariant
            from <= j <= bytes@.len(),
            run(bytes@.skip(from as int), b) == (j - from) + run(bytes@.skip(j as int), b),
        decreases bytes@.len() - j,
    {
        proof {
            assert(bytes@.skip(j as int).skip(1) =~= bytes@.skip(j + 1));
            assert(bytes@.skip(j as int)[0] == bytes@[j as int]);
        }
        j += 1;
    }
    proof {
        if j < bytes@.len() {
            assert(bytes@.skip(j as int)[0] == bytes@[j as int]);
        }
    }
    j - from
}

/// A run ends within the bytes.
pub proof fn lemma_run_bound(bytes: Seq<u8>, b: u8)
    ensures
        0 <= run(bytes, b) <= bytes.len(),
        run(bytes, b) < bytes.len() ==> bytes[run(bytes, b)] == b,
    decreases bytes.len(),
{
    if !(bytes.len() == 0 || bytes[0] == b) {
        lemma_run_bound(bytes.skip(1), b);
    }
}

/// The words of a text, each a part of the text.
fn split_words(text: &str) -> (r: Vec<&str>)
    ensures
        r@.len() == words(text.spec_bytes()).len(),
        forall|k: int|
            0 <= k < r@.len() ==> (#[trigger] r@[k]).spec_bytes() == words(text.spec_bytes())[k],
{
    let bytes = text.as_bytes();
    let ghost all = text.spec_bytes();
    let mut found: Vec<&str> = Vec::new();
    let ghost mut done: Seq<Seq<u8>> = Seq::empty();
    let mut i: usize = 0;
    proof {
        assert(all.skip(0) =~= all);
    }
    while i < bytes.len()
        invariant
            bytes@ == all,
            all == text.spec_bytes(),
            i <= all.len(),
            i < all.len() && all[i as int] != SPACE ==> i == 0 || all[i - 1] == SPACE,
            words(all) == done + words(all.skip(i as int)),
            found@.len() == done.len(),
            forall|k: int| 0 <= k < found@.len() ==> (#[trigger] found@[k]).spec_bytes() == done[k],
        decreases all.len() - i,
    {
        let ghost rest = all.skip(i as int);
        proof {
            assert(rest[0] == all[i as int]);
        }
        if bytes[i] == SPACE {
            proof {
                assert(rest.skip(1) =~= all.skip(i + 1));
            }
            i += 1;
        } else {
            let n = run_from(bytes, i, SPACE);
            let end: usize = i + n;
            let head = before(text, end);
            let word = if i == 0 {
                head
            } else {
                after(head, i - 1)
            };
            proof {
                lemma_run_bound(rest, SPACE);
                assert(word.spec_bytes() =~= rest.take(n as int));
                assert(rest.skip(n as int) =~= all.skip(end as int));
                assert(done + (seq![rest.take(n as int)] + words(rest.skip(n as int)))
                    =~= done.push(rest.take(n as int)) + words(all.skip(end as int)));
                done = done.push(rest.take(n as int));
            }
            found.push(word);
            i = end;
        }
    }
    proof {
        assert(done + Seq::<Seq<u8>>::empty() =~= done);
    }
    found
}

/// Whether a word reads as a keyword, whatever the case of its letters.
fn reads_as(word: &str, keyword: &[u8]) -> (b: bool)
    ensures
        b == reads(word.spec_bytes(), keyword@),
{
    let bytes = word.as_bytes();
    if bytes.len() != keyword.len() {
        return false;
    }
    let mut i: usize = 0;
    while i < bytes.len()
        invariant
            bytes@ == word.spec_bytes(),
            bytes@.len() == keyword@.len(),
            i <= bytes@.len(),
            forall|j: int| 0 <= j < i ==> capital(#[trigger] bytes@[j]) == keyword@[j],
        decreases bytes@.len() - i,
    {
        let b: u8 = bytes[i];
        let c: u8 = if 0x61 <= b && b <= 0x7a {
            b - 0x20
        } else {
            b
        };
        if c != keyword[i] {
            return false;
        }
        i += 1;
    }
    true
}

impl Where {
    /// The condition that a text of the form `key=value` states: the key is
    /// what stands before the first equals sign, the value what stands after
    /// it.
    pub fn parse(code: &str) -> (r: Where)
        requires
            run(code.spec_bytes(), EQUALS) < code.spec_bytes().len(),
        ensures
            r@ == condition_of(code.spec_bytes()),
    {
        let bytes = code.as_bytes();
        proof {
            assert(bytes@.skip(0) =~= bytes@);
        }
        let at = run_from(bytes, 0, EQUALS);
        let key = before(code, at);
        let value = after(code, at);
        Where { key: key.to_owned(), value: value.to_owned() }
    }
}

/// The tokens of a text: one selection for each word that reads `SELECT`.
/// A selection that names no table, or whose `WHERE` is followed by no
/// condition, is reported, and no tokens are given.
pub fn tokenize(code: &str) -> (r: Result<Vec<Token>, &str>)
    ensures
        match tokens_from(words(code.spec_bytes()), 0) {
            Ok(tokens) => r is Ok && views(r.unwrap()@) == tokens,
            Err(Fault::NoTable) => r == Err::<Vec<Token>, &str>(NO_TABLE),
            Err(Fault::NoCondition) => r == Err::<Vec<Token>, &str>(NO_CONDITION),
        },
{
    let ws = split_words(code);
    let ghost all = words(code.spec_bytes());
    let select: [u8; 6] = [0x53, 0x45, 0x4c, 0x45, 0x43, 0x54];
    let from: [u8; 4] = [0x46, 0x52, 0x4f, 0x4d];
    let condition: [u8; 5] = [0x57, 0x48, 0x45, 0x52, 0x45];
    proof {
        assert(select@ =~= select_word());
        assert(from@ =~= from_word());
        assert(condition@ =~= where_word());
    }
    let mut tokens: Vec<Token> = Vec::new();
    let mut i: usize = 0;
    proof {
        assert(views(tokens@) =~= Seq::<TokenView>::empty());
        assert(joined(views(tokens@), tokens_from(all, 0)) == tokens_from(all, 0)) by {
            match tokens_from(all, 0) {
                Ok(more) => {
                    assert(views(tokens@) + more =~= more);
                },
                Err(_) => {},
            }
        }
    }
    while i < ws.len()
        invariant
            all == words(code.spec_bytes()),
            ws@.len() == all.len(),
            forall|k: int| 0 <= k < ws@.len() ==> (#[trigger] ws@[k]).spec_bytes() == all[k],
            select@ == select_word(),
            from@ == from_word(),
            condition@ == where_word(),
            i <= ws@.len(),
            tokens_from(all, 0) == joined(views(tokens@), tokens_from(all, i as int)),
        decreases ws@.len() - i,
    {
        let left: usize = ws.len() - i;
        if reads_as(ws[i], &select) {
            proof {
                assert(reads(all[i as int], select_word()));
            }
            if left <= 3 || !reads_as(ws[i + 2], &from) {
                proof {
                    assert(select_at(all, i as int) == Err::<TokenView, Fault>(Fault::NoTable));
                }
                return Err(NO_TABLE);
            }
            let mut stated: Option<Where> = None;
            if left > 4 && reads_as(ws[i + 4], &condition) {
                if left <= 5 {
                    proof {
                        assert(select_at(all, i as int) == Err::<TokenView, Fault>(
                            Fault::NoCondition,
                        ));
                    }
                    return Err(NO_CONDITION);
                }
                let word = ws[i + 5];
                proof {
                    assert(word.spec_bytes().skip(0) =~= word.spec_bytes());
                    assert(word.spec_bytes() == all[i + 5]);
                }
                let letters = word.as_bytes();
                let sign: usize = run_from(letters, 0, EQUALS);
                if sign >= letters.len() {
                    proof {
                        assert(select_at(all, i as int) == Err::<TokenView, Fault>(
                            Fault::NoCondition,
                        ));
                    }
                    return Err(NO_CONDITION);
                }
                stated = Some(Where::parse(word));
            }
            let token = Token::Keywords(
                Keywords::Select { from: ws[i + 3].to_owned(), condition: stated },
            );
            let ghost before = views(tokens@);
            proof {
                assert(ws@[i + 3].spec_bytes() == all[i + 3]);
                assert(select_at(all, i as int) == Ok::<TokenView, Fault>(token@));
            }
            tokens.push(token);
            proof {
                assert(views(tokens@) =~= before.push(token@));
                match tokens_from(all, i + 1) {
                    Ok(rest) => {
                        assert(before + (seq![token@] + rest) =~= before.push(token@) + rest);
                    },
                    Err(_) => {},
                }
            }
        } else {
            proof {
                assert(!reads(all[i as int], select_word()));
            }
        }
        i += 1;
    }
    proof {
        assert(views(tokens@) + Seq::<TokenView>::empty() =~= views(tokens@));
    }
    Ok(tokens)
}

} // verus!
