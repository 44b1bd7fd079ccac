//! The callback protocol: the hook set a consumer implements to receive a
//! game's content in document order.  Every hook has a no-op default except
//! the mandatory end-of-game result producer.
use vstd::prelude::*;

verus! {

/// A raw header value: the bytes between a tag's opening and closing quote,
/// verbatim (escape sequences undecoded).  The slice borrows the reader's
/// buffer and is valid only for the duration of the callback it is passed to;
/// a consumer that wants to keep it must copy it out.
pub struct RawHeader<'a>(pub &'a [u8]);

/// A skip signal: `Skip(true)` asks the reader to abandon further work for
/// the current block, `Skip(false)` to continue normally.
pub struct Skip(pub bool);

/// A move in standard algebraic notation, as raw bytes.
pub struct San(pub Vec<u8>);

/// A numeric annotation glyph attached to a move.
pub struct Nag(pub u8);

/// The result token that ends a game's move text.
pub enum Outcome {
    WhiteWins,
    BlackWins,
    Draw,
    Unknown,
}

/// The answer every default hook gives where a skip signal is asked:
/// continue normally.  The trait's default bodies return through it, so
/// the default behaviour is stated, while each implementor stays free to
/// answer otherwise.
pub fn continue_normally() -> (s: Skip)
    ensures
        !s.0,
{
    Skip(false)
}

/// The consumer-implemented hook set.  Hooks fire in strict document order:
/// `begin_game`, `begin_headers`, `header` zero or more times, `end_headers`,
/// then the move-text hooks, then `end_game`, which produces the consumer's
/// per-game result.  The `end_headers` skip signal is the consumer's one
/// means of abandoning per-game work early.
///
/// The move-text hooks (`san`, `nag`, `comment`, `begin_variation`,
/// `end_variation`, `outcome`) are declared for consumers but are not fired
/// by the provided reader, which only skip-scans move text; the protocol is
/// restricted to skip-only until full move-text tokenization exists.
pub trait Visitor {
    type Output;

    /// A game is about to be read.
    fn begin_game(&mut self) {
    }

    /// The game's header block is about to be read.
    fn begin_headers(&mut self) {
    }

    /// One header tag pair.  Both slices borrow the reader's buffer and are
    /// valid only during this call.
    fn header(&mut self, _key: &[u8], _value: RawHeader<'_>) {
    }

    /// The header block ended; the answer steers move-text processing.
    fn end_headers(&mut self) -> Skip {
        continue_normally()
    }

    /// One move of the game.
    fn san(&mut self, _san: San) {
    }

    /// One numeric annotation glyph.
    fn nag(&mut self, _nag: Nag) {
    }

    /// One brace-delimited comment, verbatim.
    fn comment(&mut self, _comment: &[u8]) {
    }

    /// A variation opens; the answer steers its processing.
    fn begin_variation(&mut self) -> Skip {
        continue_normally()
    }

    /// The innermost open variation closed.
    fn end_variation(&mut self) {
    }

    /// The game's result token.
    fn outcome(&mut self, _outcome: Outcome) {
    }

    /// The game ended; produces the consumer's result for it.
    fn end_game(&mut self) -> Self::Output;
}

/// One hook invocation, as the reader's contracts record it: a game's
/// ghost event log lists these in the order the hooks fired.
pub enum GameEvent {
    /// `begin_game` fired.
    GameBegun,
    /// `begin_headers` fired.
    HeadersBegun,
    /// `header` fired with these exact name and raw value bytes.
    HeaderSeen(Seq<u8>, Seq<u8>),
    /// `end_headers` fired.
    HeadersEnded,
    /// `end_game` fired.
    GameEnded,
}

/// The full event record of one game whose header block holds the tag
/// pairs `hs`: each lifecycle hook once, in document order, with one
/// header event per pair, in order.
pub open spec fn game_events(hs: Seq<(Seq<u8>, Seq<u8>)>) -> Seq<GameEvent> {
    seq![GameEvent::GameBegun, GameEvent::HeadersBegun] + hs.map(
        |i: int, h: (Seq<u8>, Seq<u8>)| GameEvent::HeaderSeen(h.0, h.1),
    ) + seq![GameEvent::HeadersEnded, GameEvent::GameEnded]
}

/// The reference skip-everything consumer: requests maximum skipping
/// unconditionally and produces nothing, suited to callers that only need to
/// count games or drive the reader past them.
pub struct SkipVisitor;

impl SkipVisitor {
    /// The one answer this consumer ever gives where a skip signal is
    /// asked: always abandon the block.
    pub fn always_skip(&self) -> (s: Skip)
        ensures
            s.0,
    {
        Skip(true)
    }
}

impl Visitor for SkipVisitor {
    type Output = ();

    fn end_headers(&mut self) -> Skip {
        self.always_skip()
    }

    fn begin_variation(&mut self) -> Skip {
        self.always_skip()
    }

    fn end_game(&mut self) {
    }
}

} // verus!
