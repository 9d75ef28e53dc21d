//! Tokens, and the cursor that a tokenizer drives to cut a text into them.

use crate::chars::{collect_chars, debug_quote, debug_quoted};
use crate::node_type::{error, NodeType};
use crate::range::{
    byte_len, byte_offset, char_span, is_boundary, lemma_offset_ends, lemma_offset_increases,
    lemma_offset_step, lemma_tiles_push, lemma_total_coverage, joined, slice_text, text_of,
    tiles, utf8_width, Range,
};
use vstd::prelude::*;
use vstd::string::StringExecFns;

verus! {

/// A token as the cursor records it: its tag and the span that it covers.
#[derive(Clone, Copy, Debug)]
pub struct RawToken {
    pub ty: NodeType,
    pub range: Range,
}

/// A token of a tokenized text, with the text that it covers.
#[derive(Clone, Copy, Debug)]
pub struct Token<'file> {
    pub ty: NodeType,
    pub text: &'file str,
    pub range: Range,
}

/// The spans of the tokens, in order.
pub open spec fn ranges_of(tokens: Seq<RawToken>) -> Seq<Range> {
    Seq::new(tokens.len(), |k: int| tokens[k].range)
}

/// The index of the first entry of `table` at or after `from` that names
/// `c`.
pub open spec fn find_char(table: Seq<(NodeType, char)>, c: char, from: int) -> Option<int>
    decreases table.len() - from,
{
    if from < 0 || from >= table.len() {
        None
    } else if table[from].1 == c {
        Some(from)
    } else {
        find_char(table, c, from + 1)
    }
}

/// The end of the longest run of characters from `pos` on that `accepts`
/// accepts.
pub open spec fn run_end(text: Seq<char>, pos: int, accepts: spec_fn(char) -> bool) -> int
    decreases text.len() - pos,
{
    if 0 <= pos < text.len() && accepts(text[pos]) {
        run_end(text, pos + 1, accepts)
    } else {
        pos
    }
}

/// A run ends in the text, behind accepted characters only and before one
/// that is not accepted.
pub proof fn lemma_run_end(text: Seq<char>, pos: int, accepts: spec_fn(char) -> bool)
    requires
        0 <= pos <= text.len(),
    ensures
        pos <= run_end(text, pos, accepts) <= text.len(),
        forall|k: int| pos <= k < run_end(text, pos, accepts) ==> accepts(#[trigger] text[k]),
        run_end(text, pos, accepts) < text.len() ==> !accepts(text[run_end(text, pos, accepts)]),
    decreases text.len() - pos,
{
    if pos < text.len() && accepts(text[pos]) {
        lemma_run_end(text, pos + 1, accepts);
    }
}

/// The end of a run is where the first character stands that is not
/// accepted.
pub proof fn lemma_run_end_is(text: Seq<char>, pos: int, end: int, accepts: spec_fn(char) -> bool)
    requires
        0 <= pos <= end <= text.len(),
        forall|k: int| pos <= k < end ==> accepts(#[trigger] text[k]),
        end < text.len() ==> !accepts(text[end]),
    ensures
        run_end(text, pos, accepts) == end,
    decreases end - pos,
{
    if pos < end {
        assert(accepts(text[pos]));
        lemma_run_end_is(text, pos + 1, end, accepts);
    }
}

/// The tokens that a text is cut into from `pos` on, where `rule` tells
/// for each position the tag of the token that begins there and where it
/// ends.
pub open spec fn tokens_by(
    text: Seq<char>,
    pos: int,
    rule: spec_fn(Seq<char>, int) -> (NodeType, int),
) -> Seq<RawToken>
    decreases text.len() - pos,
{
    if 0 <= pos < text.len() {
        let (ty, end) = rule(text, pos);
        if pos < end <= text.len() {
            seq![RawToken { ty, range: char_span(text, pos, end) }] + tokens_by(text, end, rule)
        } else {
            Seq::empty()
        }
    } else {
        Seq::empty()
    }
}

/// A cursor that emitted the token that the rule tells for its position
/// has as many tokens to its goal as before.
pub proof fn lemma_tokens_step(
    before: &TokenBuilder,
    after: &TokenBuilder,
    rule: spec_fn(Seq<char>, int) -> (NodeType, int),
)
    requires
        0 <= before.pos() < before.text().len(),
        before.pending_start() == before.pos(),
        after.emitted_upto(before, rule(before.text(), before.pos()).0, after.pos()),
        after.pos() == rule(before.text(), before.pos()).1,
        before.pos() < after.pos() <= before.text().len(),
    ensures
        after.emitted() + tokens_by(after.text(), after.pos(), rule) == before.emitted()
            + tokens_by(before.text(), before.pos(), rule),
{
    let text = before.text();
    let (ty, end) = rule(text, before.pos());
    let token = RawToken { ty, range: char_span(text, before.pos(), end) };
    assert(tokens_by(text, before.pos(), rule) == seq![token] + tokens_by(text, end, rule));
    assert(before.emitted().push(token) + tokens_by(text, end, rule) =~= before.emitted() + (
    seq![token] + tokens_by(text, end, rule)));
}

/// One line of a token listing: the tag's name, a space, the quoted text.
pub open spec fn token_line(text: Seq<char>, token: RawToken) -> Seq<char> {
    token.ty.1@ + seq![' '] + debug_quoted(text_of(text, token.range)) + seq!['\n']
}

/// The listing of the tokens of `text`, one line for each.
pub open spec fn token_listing(text: Seq<char>, tokens: Seq<RawToken>) -> Seq<char>
    decreases tokens.len(),
{
    if tokens.len() == 0 {
        Seq::empty()
    } else {
        token_listing(text, tokens.drop_last()) + token_line(text, tokens.last())
    }
}

/// The cursor that a tokenizer moves over a text.
///
/// The characters before `pos()` are consumed. Those before
/// `pending_start()` are covered by the tokens emitted so far; the ones
/// between the two are pending: the next `emit` turns them into a token.
pub struct TokenBuilder {
    chars: Vec<char>,
    next: usize,
    tokens: Vec<RawToken>,
    prev_offset: u32,
    curr_offset: u32,
    pending: Ghost<int>,
}

impl TokenBuilder {
    /// The text that is being cut into tokens.
    pub closed spec fn text(&self) -> Seq<char> {
        self.chars@
    }

    /// The number of characters consumed.
    pub closed spec fn pos(&self) -> int {
        self.next as int
    }

    /// The number of characters that the emitted tokens cover.
    pub closed spec fn pending_start(&self) -> int {
        self.pending@
    }

    /// The tokens emitted so far.
    pub closed spec fn emitted(&self) -> Seq<RawToken> {
        self.tokens@
    }

    /// The positions are in order, and the emitted tokens tile the text
    /// before the pending characters.
    pub open spec fn wf(&self) -> bool {
        &&& self.inv()
        &&& 0 <= self.pending_start() <= self.pos() <= self.text().len()
    }

    /// The emitted tokens tile the text before the pending characters.
    pub closed spec fn inv(&self) -> bool {
        &&& 0 <= self.pending@ <= self.next <= self.chars@.len()
        &&& byte_len(self.chars@) <= u32::MAX
        &&& self.prev_offset == byte_offset(self.chars@, self.pending@)
        &&& self.curr_offset == byte_offset(self.chars@, self.next as int)
        &&& tiles(self.chars@, ranges_of(self.tokens@), 0, self.prev_offset as int)
    }

    /// The next character, if any is left.
    pub open spec fn peek_spec(&self) -> Option<char> {
        if 0 <= self.pos() < self.text().len() {
            Some(self.text()[self.pos()])
        } else {
            None
        }
    }

    /// Nothing is consumed or emitted yet.
    pub open spec fn is_fresh(&self) -> bool {
        self.pos() == 0 && self.pending_start() == 0 && self.emitted().len() == 0
    }

    /// The whole text is consumed and nothing is pending.
    pub open spec fn is_done(&self) -> bool {
        self.pos() == self.text().len() && self.pending_start() == self.pos()
    }

    /// The state after a token of type `ty` is cut off at character `end`,
    /// seen from the state `before`.
    pub open spec fn emitted_upto(&self, before: &TokenBuilder, ty: NodeType, end: int) -> bool {
        &&& self.text() == before.text()
        &&& self.pos() == end
        &&& self.pending_start() == end
        &&& self.emitted() == before.emitted().push(
            RawToken { ty, range: char_span(before.text(), before.pending_start(), end) },
        )
    }

    /// The positions of a well-formed cursor are in order.
    pub proof fn lemma_bounds(&self)
        requires
            self.wf(),
        ensures
            0 <= self.pending_start() <= self.pos() <= self.text().len(),
            byte_len(self.text()) <= u32::MAX,
            tiles(
                self.text(),
                ranges_of(self.emitted()),
                0,
                byte_offset(self.text(), self.pending_start()) as int,
            ),
    {
    }

    /// A cursor at the start of `text`.
    pub fn new(text: &str) -> (builder: TokenBuilder)
        requires
            byte_len(text@) <= u32::MAX,
        ensures
            builder.wf(),
            builder.is_fresh(),
            builder.text() == text@,
    {
        let chars = collect_chars(text);
        proof {
            lemma_offset_ends(chars@);
        }
        TokenBuilder {
            chars,
            next: 0,
            tokens: Vec::new(),
            prev_offset: 0,
            curr_offset: 0,
            pending: Ghost(0),
        }
    }

    fn into_tokens(self) -> (tokens: Vec<RawToken>)
        ensures
            tokens@ == self.emitted(),
    {
        self.tokens
    }

    /// The next character, if any is left. Nothing is consumed.
    pub fn peek(&mut self) -> (next: Option<char>)
        ensures
            *final(self) == *old(self),
            next == old(self).peek_spec(),
    {
        if self.next < self.chars.len() {
            Some(self.chars[self.next])
        } else {
            None
        }
    }

    /// Consumes the next character: it joins the pending characters.
    pub fn bump(&mut self)
        requires
            old(self).wf(),
            old(self).pos() < old(self).text().len(),
        ensures
            final(self).wf(),
            final(self).text() == old(self).text(),
            final(self).emitted() == old(self).emitted(),
            final(self).pending_start() == old(self).pending_start(),
            final(self).pos() == old(self).pos() + 1,
    {
        let c = self.chars[self.next];
        proof {
            lemma_offset_step(self.chars@, self.next as int);
            lemma_offset_increases(self.chars@, self.next + 1, self.chars@.len() as int);
        }
        let width = utf8_width(c);
        assert(self.next < self.chars.len());
        self.next = self.next + 1;
        self.curr_offset = self.curr_offset + width;
    }

    /// Emits the pending characters as a token of type `ty`.
    pub fn emit(&mut self, ty: NodeType)
        requires
            old(self).wf(),
            old(self).pending_start() < old(self).pos(),
        ensures
            final(self).wf(),
            final(self).emitted_upto(old(self), ty, old(self).pos()),
    {
        proof {
            lemma_offset_increases(self.chars@, self.pending@, self.next as int);
        }
        let range = Range::from_to(self.prev_offset, self.curr_offset);
        let token = RawToken { ty, range };
        proof {
            assert(is_boundary(self.chars@, range.spec_lo() as int)) by {
                assert(byte_offset(self.chars@, self.pending@) == range.spec_lo());
            }
            assert(is_boundary(self.chars@, range.spec_hi() as int)) by {
                assert(byte_offset(self.chars@, self.next as int) == range.spec_hi());
            }
            lemma_tiles_push(
                self.chars@,
                ranges_of(self.tokens@),
                0,
                self.prev_offset as int,
                range,
            );
            assert(ranges_of(self.tokens@.push(token)) =~= ranges_of(self.tokens@).push(range));
        }
        self.prev_offset = self.curr_offset;
        self.tokens.push(token);
        proof {
            self.pending@ = self.next as int;
        }
    }

    /// Emits the pending characters as an error token.
    pub fn error(&mut self)
        requires
            old(self).wf(),
            old(self).pending_start() < old(self).pos(),
        ensures
            final(self).wf(),
            final(self).emitted_upto(old(self), error(), old(self).pos()),
    {
        self.emit(error());
    }

    /// If the next character is `c`, consumes it and emits what is pending
    /// as a token of type `ty`.
    pub fn try_emit(&mut self, ty: NodeType, c: char) -> (matched: bool)
        requires
            old(self).wf(),
        ensures
            final(self).wf(),
            matched == (old(self).peek_spec() == Some(c)),
            matched ==> final(self).emitted_upto(old(self), ty, old(self).pos() + 1),
            !matched ==> *final(self) == *old(self),
    {
        match self.peek() {
            Some(next) => {
                if next == c {
                    self.bump();
                    self.emit(ty);
                    true
                } else {
                    false
                }
            },
            None => false,
        }
    }

    /// If the next character stands in `tokens`, consumes it and emits what
    /// is pending as a token of the type of the first entry that names it.
    pub fn try_text_token(&mut self, tokens: &[(NodeType, char)]) -> (matched: bool)
        requires
            old(self).wf(),
        ensures
            final(self).wf(),
            match old(self).peek_spec() {
                Some(c) => match find_char(tokens@, c, 0) {
                    Some(i) => matched && final(self).emitted_upto(
                        old(self),
                        tokens[i].0,
                        old(self).pos() + 1,
                    ),
                    None => !matched && *final(self) == *old(self),
                },
                None => !matched && *final(self) == *old(self),
            },
    {
        let next = match self.peek() {
            Some(n) => n,
            None => { return false; },
        };
        let mut i: usize = 0;
        while i < tokens.len()
            invariant
                i <= tokens.len(),
                *self == *old(self),
                self.wf(),
                self.peek_spec() == Some(next),
                find_char(tokens@, next, 0) == find_char(tokens@, next, i as int),
            decreases tokens.len() - i,
        {
            let (ty, c) = tokens[i];
            if c == next {
                self.bump();
                self.emit(ty);
                return true;
            }
            i += 1;
        }
        false
    }

    /// The state after a run of characters that `pred` accepts, the longest
    /// there is at the cursor of `before`, became a token of type `ty`.
    pub open spec fn munched<P: Fn(char) -> bool>(
        &self,
        before: &TokenBuilder,
        ty: NodeType,
        pred: &P,
    ) -> bool {
        &&& before.pos() < self.pos() <= self.text().len()
        &&& self.emitted_upto(before, ty, self.pos())
        &&& forall|k: int|
            before.pos() <= k < self.pos() ==> call_ensures(
                *pred,
                (#[trigger] before.text()[k],),
                true,
            )
        &&& self.pos() < self.text().len() ==> call_ensures(
            *pred,
            (before.text()[self.pos()],),
            false,
        )
    }

    /// Maximal munch: if `pred` accepts the next character, consumes the
    /// longest run of characters that it accepts and emits what is pending
    /// as a token of type `ty`.
    pub fn try_advance_while<P: Fn(char) -> bool>(&mut self, ty: NodeType, pred: &P) -> (matched:
        bool)
        requires
            old(self).wf(),
            forall|c: char| call_requires(*pred, (c,)),
        ensures
            final(self).wf(),
            matched ==> final(self).munched(old(self), ty, pred),
            !matched ==> *final(self) == *old(self) && (match old(self).peek_spec() {
                Some(c) => call_ensures(*pred, (c,), false),
                None => true,
            }),
    {
        let next = match self.peek() {
            Some(n) => n,
            None => { return false; },
        };
        if !pred(next) {
            return false;
        }
        self.munch(ty, pred);
        true
    }

    fn munch<P: Fn(char) -> bool>(&mut self, ty: NodeType, pred: &P)
        requires
            old(self).wf(),
            forall|c: char| call_requires(*pred, (c,)),
            old(self).pos() < old(self).text().len(),
            call_ensures(*pred, (old(self).text()[old(self).pos()],), true),
        ensures
            final(self).wf(),
            final(self).munched(old(self), ty, pred),
    {
        self.bump();
        loop
            invariant_except_break
                self.wf(),
                self.text() == old(self).text(),
                self.emitted() == old(self).emitted(),
                self.pending_start() == old(self).pending_start(),
                old(self).pos() < self.pos() <= self.text().len(),
                forall|c: char| call_requires(*pred, (c,)),
                forall|k: int|
                    old(self).pos() <= k < self.pos() ==> call_ensures(
                        *pred,
                        (#[trigger] old(self).text()[k],),
                        true,
                    ),
            ensures
                self.wf(),
                self.text() == old(self).text(),
                self.emitted() == old(self).emitted(),
                self.pending_start() == old(self).pending_start(),
                old(self).pos() < self.pos() <= self.text().len(),
                forall|k: int|
                    old(self).pos() <= k < self.pos() ==> call_ensures(
                        *pred,
                        (#[trigger] old(self).text()[k],),
                        true,
                    ),
                self.pos() < self.text().len() ==> call_ensures(
                    *pred,
                    (old(self).text()[self.pos()],),
                    false,
                ),
            decreases self.text().len() - self.pos(),
        {
            match self.peek() {
                Some(c) => {
                    if !pred(c) {
                        break ;
                    }
                    self.bump();
                },
                None => {
                    break ;
                },
            }
        }
        proof {
            old(self).lemma_bounds();
        }
        self.emit(ty);
    }

    /// Maximal munch with the first predicate of `tokens` that accepts the
    /// next character.
    pub fn try_pred_token<P: Fn(char) -> bool>(&mut self, tokens: &[(NodeType, P)]) -> (matched:
        bool)
        requires
            old(self).wf(),
            forall|i: int, c: char| 0 <= i < tokens.len() ==> call_requires(tokens[i].1, (c,)),
        ensures
            final(self).wf(),
            matched ==> exists|i: int|
                0 <= i < tokens.len() && final(self).munched(old(self), tokens[i].0, &tokens[i].1)
                    && forall|j: int|
                    0 <= j < i ==> call_ensures(
                        tokens[j].1,
                        (old(self).text()[old(self).pos()],),
                        false,
                    ),
            !matched ==> *final(self) == *old(self) && (match old(self).peek_spec() {
                Some(c) => forall|j: int|
                    0 <= j < tokens.len() ==> call_ensures(tokens[j].1, (c,), false),
                None => true,
            }),
    {
        let next = match self.peek() {
            Some(n) => n,
            None => { return false; },
        };
        let mut i: usize = 0;
        while i < tokens.len()
            invariant
                i <= tokens.len(),
                *self == *old(self),
                self.wf(),
                self.peek_spec() == Some(next),
                forall|i: int, c: char| 0 <= i < tokens.len() ==> call_requires(tokens[i].1, (c,)),
                forall|j: int| 0 <= j < i ==> call_ensures(tokens[j].1, (next,), false),
            decreases tokens.len() - i,
        {
            let accepted = (tokens[i].1)(next);
            if accepted {
                let ty = tokens[i].0;
                self.munch(ty, &tokens[i].1);
                return true;
            }
            i += 1;
        }
        false
    }
}

/// Appends to `out` the name of `ty`, a space, `text` in quotes and a line
/// break.
pub fn write_token_line(out: &mut String, ty: NodeType, text: &str)
    ensures
        final(out)@ == old(out)@ + (ty.1@ + seq![' '] + debug_quoted(text@) + seq!['\n']),
{
    proof {
        reveal_strlit(" ");
        reveal_strlit("\n");
    }
    let ghost before = out@;
    let quoted = debug_quote(text);
    out.append(ty.name());
    out.append(" ");
    out.append(quoted.as_str());
    out.append("\n");
    proof {
        assert(" "@ =~= seq![' ']);
        assert("\n"@ =~= seq!['\n']);
        assert(out@ =~= before + (ty.1@ + seq![' '] + debug_quoted(text@) + seq!['\n']));
    }
}

/// A text together with the tokens that a tokenizer cut it into.
pub struct TokenFile {
    text: String,
    tokens: Vec<RawToken>,
}

impl TokenFile {
    /// The tokenized text.
    pub closed spec fn text_spec(&self) -> Seq<char> {
        self.text@
    }

    /// The tokens, in the order of the text.
    pub closed spec fn tokens_spec(&self) -> Seq<RawToken> {
        self.tokens@
    }

    /// The tokens cover the text from its first byte to its last, without
    /// gap or overlap.
    pub open spec fn wf(&self) -> bool {
        &&& byte_len(self.text_spec()) <= u32::MAX
        &&& tiles(
            self.text_spec(),
            ranges_of(self.tokens_spec()),
            0,
            byte_len(self.text_spec()) as int,
        )
    }

    /// The texts of the tokens, joined in order, are the text.
    pub proof fn lemma_total_coverage(&self)
        requires
            self.wf(),
        ensures
            joined(self.text_spec(), ranges_of(self.tokens_spec())) == self.text_spec(),
    {
        lemma_total_coverage(self.text_spec(), ranges_of(self.tokens_spec()));
    }

    /// The file of a cursor that has consumed `text` to its end.
    pub fn assemble(text: String, builder: TokenBuilder) -> (file: TokenFile)
        requires
            builder.wf(),
            builder.is_done(),
            builder.text() == text@,
        ensures
            file.wf(),
            file.text_spec() == text@,
            file.tokens_spec() == builder.emitted(),
    {
        proof {
            builder.lemma_bounds();
            lemma_offset_ends(text@);
        }
        TokenFile { text, tokens: builder.into_tokens() }
    }

    /// Runs `tokenizer` over `text`.
    pub fn new<F: Fn(&mut TokenBuilder)>(text: String, tokenizer: &F) -> (file: TokenFile)
        requires
            byte_len(text@) <= u32::MAX,
            forall|b: &mut TokenBuilder|
                b.wf() && b.is_fresh() && b.text() == text@ ==> call_requires(*tokenizer, (b,)),
            forall|b: &mut TokenBuilder|
                b.wf() && b.is_fresh() && b.text() == text@ && call_ensures(*tokenizer, (b,), ())
                    ==> final(b).wf() && final(b).is_done() && final(b).text() == text@,
        ensures
            file.wf(),
            file.text_spec() == text@,
            exists|b: &mut TokenBuilder|
                b.wf() && b.is_fresh() && b.text() == text@ && call_ensures(*tokenizer, (b,), ())
                    && file.tokens_spec() == final(b).emitted(),
    {
        let mut builder = TokenBuilder::new(text.as_str());
        tokenizer(&mut builder);
        TokenFile::assemble(text, builder)
    }

    /// The tokens, each with the text that it covers.
    pub fn tokens(&self) -> (tokens: Vec<Token<'_>>)
        requires
            self.wf(),
        ensures
            tokens@.len() == self.tokens_spec().len(),
            forall|k: int|
                0 <= k < tokens@.len() ==> {
                    &&& (#[trigger] tokens@[k]).ty == self.tokens_spec()[k].ty
                    &&& tokens@[k].range == self.tokens_spec()[k].range
                    &&& tokens@[k].text@ == text_of(self.text_spec(), self.tokens_spec()[k].range)
                },
    {
        let mut tokens: Vec<Token<'_>> = Vec::new();
        let mut i: usize = 0;
        while i < self.tokens.len()
            invariant
                i <= self.tokens.len(),
                self.wf(),
                tokens@.len() == i,
                forall|k: int|
                    0 <= k < i ==> {
                        &&& (#[trigger] tokens@[k]).ty == self.tokens@[k].ty
                        &&& tokens@[k].range == self.tokens@[k].range
                        &&& tokens@[k].text@ == text_of(self.text@, self.tokens@[k].range)
                    },
            decreases self.tokens.len() - i,
        {
            let t = self.tokens[i];
            proof {
                assert(ranges_of(self.tokens@)[i as int] == t.range);
            }
            tokens.push(Token { ty: t.ty, text: slice_text(self.text.as_str(), t.range), range: t.range });
            i += 1;
        }
        tokens
    }

    /// One line for each token: the name of its type and its quoted text.
    pub fn dump(&self) -> (listing: String)
        requires
            self.wf(),
        ensures
            listing@ == token_listing(self.text_spec(), self.tokens_spec()),
    {
        let mut listing = String::new();
        let mut i: usize = 0;
        while i < self.tokens.len()
            invariant
                i <= self.tokens.len(),
                self.wf(),
                listing@ == token_listing(self.text@, self.tokens@.take(i as int)),
            decreases self.tokens.len() - i,
        {
            let t = self.tokens[i];
            proof {
                assert(ranges_of(self.tokens@)[i as int] == t.range);
                assert(self.tokens@.take(i + 1).drop_last() =~= self.tokens@.take(i as int));
                assert(self.tokens@.take(i + 1).last() == t);
            }
            let part = slice_text(self.text.as_str(), t.range);
            write_token_line(&mut listing, t.ty, part);
            i += 1;
        }
        proof {
            assert(self.tokens@.take(i as int) =~= self.tokens@);
        }
        listing
    }

    /// The text of the file.
    pub fn into_text(self) -> (text: String)
        ensures
            text@ == self.text_spec(),
    {
        self.text
    }
}

} // verus!
