//! Reading a command line, split into words, into what it asks for.
use vstd::prelude::*;
use crate::actions::{Action, ActionView};
use crate::commands::{
    add_bookmark, add_reading, currently_reading, edit_reading, find_reading, finish_reading,
    get_stats, id_not_integer, reads, invalid_id, is_u32, outcome, reading_avg, remove_reading,
    reset_reading, search_keyword, show_bookmarks, show_readings, spec_add_bookmark,
    spec_add_reading, spec_checked_command, spec_currently_reading, spec_edit_reading,
    spec_get_stats, spec_id_command, spec_reading_avg, spec_text_command, undo_bookmark, CommandView,
};
use crate::clock::now;
use crate::structs::{Error, Timestamp};
use crate::text::same_text;

verus! {

/// The text of the error for a missing word.
pub open spec fn not_recognized() -> Seq<char> {
    "Parse Error: Command Not Recognized"@
}

/// Whether `r` and `after` are what reading the next word of `before`
/// gives: the word, one position on, while a word is left; else the
/// not-recognized error, with the position unchanged.
pub open spec fn stepped<'a>(before: Parser<'a>, after: Parser<'a>, r: Result<&'a str, Error>) -> bool {
    &&& after.words() == before.words()
    &&& 0 <= before.position() <= before.words().len()
    &&& if before.position() < before.words().len() {
        &&& r matches Ok(w)
        &&& w@ == before.words()[before.position()]
        &&& after.position() == before.position() + 1
    } else {
        &&& r matches Err(e)
        &&& e@ == not_recognized()
        &&& after.position() == before.position()
    }
}

/// The words of a command line and how many of them have been read.
pub struct Parser<'a> {
    position: usize,
    words: Vec<&'a str>,
    clock: Ghost<Timestamp>,
}

impl<'a> Parser<'a> {
    #[verifier::type_invariant]
    spec fn inv(&self) -> bool {
        self.position <= self.words.len()
    }

    /// The words, as texts.
    pub closed spec fn words(&self) -> Seq<Seq<char>> {
        self.words@.map_values(|w: &str| w@)
    }

    /// How many words have been read.
    pub closed spec fn position(&self) -> int {
        self.position as int
    }

    /// The last clock reading taken through `read_clock`.
    pub closed spec fn clock_reading(&self) -> Timestamp {
        self.clock@
    }

    /// The words not yet read.
    pub open spec fn rest(&self) -> Seq<Seq<char>> {
        self.words().skip(self.position())
    }

    /// A parser at the start of `words`.
    pub fn new(words: Vec<&'a str>) -> (p: Self)
        ensures
            p.words() == words@.map_values(|w: &str| w@),
            p.position() == 0,
    {
        Parser { words, position: 0, clock: Ghost(Timestamp { secs: 0, nanos: 0 }) }
    }

    /// Reads the clock, and keeps the reading as the parser's last one.
    pub(crate) fn read_clock(&mut self) -> (t: Timestamp)
        ensures
            final(self).words() == old(self).words(),
            final(self).position() == old(self).position(),
            final(self).clock_reading() == t,
    {
        proof {
            use_type_invariant(&*self);
        }
        let t = now();
        self.clock = Ghost(t);
        t
    }

    /// Reads the next word, or fails when none is left.
    pub fn next(&mut self) -> (r: Result<&'a str, Error>)
        ensures
            stepped(*old(self), *final(self), r),
    {
        proof {
            use_type_invariant(&*self);
        }
        if self.position < self.words.len() {
            let w = self.words[self.position];
            self.position = self.position + 1;
            Ok(w)
        } else {
            Err("Parse Error: Command Not Recognized")
        }
    }

    /// Succeeds when every word has been read.
    pub fn last(&mut self) -> (r: Result<(), Error>)
        ensures
            *final(self) == *old(self),
            old(self).position() >= old(self).words().len() ==> r is Ok,
            old(self).position() < old(self).words().len() ==> (r matches Err(e) && e@ == "Parse Error: Trailing Words"@),
    {
        if self.position >= self.words.len() {
            Ok(())
        } else {
            Err("Parse Error: Trailing Words")
        }
    }
}


/// What a command line asks of the program.
#[derive(Debug)]
pub enum Effect {
    /// Hand this action to the store.
    Dispatch(Action),
    /// Print the list of commands.
    Help,
    /// End the program.
    Exit,
    /// Print the best time for reading.
    BestTime,
    /// Report an unknown command.
    Unknown,
    /// Nothing (the command's parameters could not be read).
    Nothing,
}

/// The mathematical content of an `Effect`.
pub enum EffectView {
    Dispatch(ActionView),
    Help,
    Exit,
    BestTime,
    Unknown,
    Nothing,
}

impl View for Effect {
    type V = EffectView;

    open spec fn view(&self) -> EffectView {
        match self {
            Effect::Dispatch(a) => EffectView::Dispatch(a@),
            Effect::Help => EffectView::Help,
            Effect::Exit => EffectView::Exit,
            Effect::BestTime => EffectView::BestTime,
            Effect::Unknown => EffectView::Unknown,
            Effect::Nothing => EffectView::Nothing,
        }
    }
}

/// The view of a success-or-error-text result.
pub open spec fn status(r: Result<(), Error>) -> Result<(), Seq<char>> {
    match r {
        Ok(()) => Ok(()),
        Err(e) => Err(e@),
    }
}

/// A command's outcome as an effect: its action is dispatched, its error
/// dropped.
pub open spec fn command_effect(c: CommandView) -> (EffectView, nat) {
    match c.0 {
        Ok(a) => (EffectView::Dispatch(a), c.1),
        Err(_) => (EffectView::Nothing, c.1),
    }
}

/// What the command word `cmd` does with the words `rest` after it (the
/// clock reading `clock`): the effect and how many words it reads.
pub open spec fn spec_command(cmd: Seq<char>, rest: Seq<Seq<char>>, clock: i64) -> (EffectView, nat) {
    if cmd == "id"@ || cmd == "$"@ {
        command_effect(spec_checked_command(rest, |id: u32| ActionView::FindByID(id), id_not_integer()))
    } else if cmd == "add"@ {
        command_effect(spec_add_reading(rest))
    } else if cmd == "avg"@ {
        command_effect(spec_reading_avg(rest, clock))
    } else if cmd == "bookmark"@ || cmd == "!!"@ {
        command_effect(spec_add_bookmark(rest))
    } else if cmd == "bookmarks"@ {
        command_effect(spec_checked_command(rest, |id: u32| ActionView::ShowBookmarks(id), id_not_integer()))
    } else if cmd == "current"@ {
        command_effect(spec_currently_reading(rest, clock))
    } else if cmd == "edit"@ {
        command_effect(spec_edit_reading(rest))
    } else if cmd == "exit"@ {
        (EffectView::Exit, 0)
    } else if cmd == "finish"@ {
        command_effect(spec_id_command(rest, |id: u32| ActionView::FinishReading(id)))
    } else if cmd == "help"@ {
        (EffectView::Help, 0)
    } else if cmd == "rm"@ {
        command_effect(spec_checked_command(rest, |id: u32| ActionView::RemoveReading(id), invalid_id()))
    } else if cmd == "reset"@ {
        command_effect(spec_checked_command(rest, |id: u32| ActionView::ResetReading(id), invalid_id()))
    } else if cmd == "find"@ {
        command_effect(spec_text_command(rest, |q: Seq<char>| ActionView::SearchKeyword(crate::text::lowercase(q))))
    } else if cmd == "show"@ {
        command_effect(spec_text_command(rest, |f: Seq<char>| ActionView::ShowFilter(f)))
    } else if cmd == "stats"@ {
        command_effect(spec_get_stats(rest, clock))
    } else if cmd == "time"@ {
        (EffectView::BestTime, 0)
    } else if cmd == "undo"@ {
        command_effect(spec_id_command(rest, |id: u32| ActionView::UndoBookmark(id)))
    } else if cmd == "random"@ {
        (EffectView::Dispatch(ActionView::ReadRandom), 0)
    } else if cmd == "finished"@ {
        (EffectView::Dispatch(ActionView::ShowFinished), 0)
    } else if cmd == "last"@ {
        (EffectView::Dispatch(ActionView::ShowOldestRead), 0)
    } else if cmd == "save"@ || cmd == "++"@ {
        (EffectView::Dispatch(ActionView::SaveData), 0)
    } else if cmd == "unfinished"@ {
        (EffectView::Dispatch(ActionView::ShowUnfinished), 0)
    } else {
        (EffectView::Unknown, 0)
    }
}

/// What parsing `words` from `pos` gives, the clock reading `clock`: the
/// effect, and whether the line was read to its end (`exit` ends the
/// program before that is checked).
pub open spec fn spec_parse(words: Seq<Seq<char>>, pos: int, clock: i64) -> (EffectView, Result<(), Seq<char>>) {
    if pos >= words.len() {
        (EffectView::Nothing, Err(not_recognized()))
    } else {
        let (e, k) = spec_command(words[pos], words.skip(pos + 1), clock);
        if e is Exit {
            (e, Ok(()))
        } else if pos + 1 + k >= words.len() {
            (e, Ok(()))
        } else {
            (e, Err("Parse Error: Trailing Words"@))
        }
    }
}

/// Where the parser stands after parsing `words` from `pos`, the clock
/// reading `clock`: just after the command word and the words its command
/// read, or where it was when no word was left.
pub open spec fn parse_end(words: Seq<Seq<char>>, pos: int, clock: i64) -> int {
    if pos >= words.len() {
        pos
    } else {
        pos + 1 + spec_command(words[pos], words.skip(pos + 1), clock).1
    }
}

/// Whether parsing `words` from `pos` reads every number it insists on:
/// the page count of `add`, the id of `edit`, `finish` and `undo`, and
/// the id and page of `bookmark`.
pub open spec fn parse_safe(words: Seq<Seq<char>>, pos: int) -> bool {
    pos < words.len() ==> {
        let cmd = words[pos];
        let rest = words.skip(pos + 1);
        &&& cmd == "add"@ ==> (rest.len() >= 3 ==> is_u32(rest[2]))
        &&& (cmd == "edit"@ || cmd == "finish"@ || cmd == "undo"@) ==> (rest.len() >= 1 ==> is_u32(rest[0]))
        &&& (cmd == "bookmark"@ || cmd == "!!"@) ==> (rest.len() >= 1 ==> is_u32(rest[0]))
        &&& (cmd == "bookmark"@ || cmd == "!!"@) ==> (rest.len() >= 2 ==> is_u32(rest[1]))
    }
}

fn effect_of(r: Result<Action, Error>) -> (e: Effect)
    ensures
        e@ == (match outcome(r) {
            Ok(a) => EffectView::Dispatch(a),
            Err(_) => EffectView::Nothing,
        }),
{
    match r {
        Ok(a) => Effect::Dispatch(a),
        Err(_) => Effect::Nothing,
    }
}

impl<'a> Parser<'a> {
    /// Whether `parse` can run on this line: every number that a command
    /// insists on is one.
    pub fn can_parse(&self) -> (b: bool)
        ensures
            b == parse_safe(self.words(), self.position()),
    {
        proof {
            use_type_invariant(self);
        }
        if self.position >= self.words.len() {
            return true;
        }
        let ghost rest = self.words().skip(self.position() + 1);
        let cmd = self.words[self.position];
        let n = self.words.len() - self.position - 1;
        assert(cmd@ == self.words()[self.position()]);
        assert(rest.len() == n);
        if n >= 1 {
            assert(rest[0] == self.words@[self.position + 1]@);
        }
        if n >= 2 {
            assert(rest[1] == self.words@[self.position + 2]@);
        }
        if n >= 3 {
            assert(rest[2] == self.words@[self.position + 3]@);
        }
        proof {
            reveal_strlit("add");
            reveal_strlit("edit");
            reveal_strlit("finish");
            reveal_strlit("undo");
            reveal_strlit("bookmark");
            reveal_strlit("!!");
        }
        if same_text(cmd, "add") {
            n < 3 || crate::text::parse_u32(self.words[self.position + 3]).is_some()
        } else if same_text(cmd, "edit") || same_text(cmd, "finish") || same_text(cmd, "undo") {
            n < 1 || crate::text::parse_u32(self.words[self.position + 1]).is_some()
        } else if same_text(cmd, "bookmark") || same_text(cmd, "!!") {
            (n < 1 || crate::text::parse_u32(self.words[self.position + 1]).is_some())
                && (n < 2 || crate::text::parse_u32(self.words[self.position + 2]).is_some())
        } else {
            true
        }
    }

    /// Reads the command line: the command word, then its parameters, then
    /// checks that no word is left over. The effect stands even when words
    /// are left over.
    pub fn parse(&mut self) -> (r: (Effect, Result<(), Error>))
        requires
            parse_safe(old(self).words(), old(self).position()),
        ensures
            final(self).words() == old(self).words(),
            exists|clock: i64|
                (r.0@, status(r.1)) == #[trigger] spec_parse(old(self).words(), old(self).position(), clock)
                    && final(self).position() == parse_end(old(self).words(), old(self).position(), clock),
            (r.0@, status(r.1)) == spec_parse(old(self).words(), old(self).position(), final(self).clock_reading().secs),
            final(self).position() == parse_end(old(self).words(), old(self).position(), final(self).clock_reading().secs),
    {
        let ghost words = self.words();
        let ghost pos = self.position();
        let command = match self.next() {
            Ok(w) => w,
            Err(e) => {
                assert(spec_parse(words, pos, 0).1 == status(Err(e)));
                assert(self.position() == parse_end(words, pos, 0));
                assert(spec_parse(words, pos, self.clock_reading().secs).1 == status(Err(e)));
                return (Effect::Nothing, Err(e));
            },
        };
        let ghost rest = words.skip(pos + 1);
        assert(self.rest() =~= rest);
        let ghost mut clock: i64 = 0;
        let effect = if same_text(command, "id") || same_text(command, "$") {
            effect_of(find_reading(self))
        } else if same_text(command, "add") {
            effect_of(add_reading(self))
        } else if same_text(command, "avg") {
            let r = reading_avg(self);
            proof {
                clock = self.clock_reading().secs;
            }
            effect_of(r)
        } else if same_text(command, "bookmark") || same_text(command, "!!") {
            effect_of(add_bookmark(self))
        } else if same_text(command, "bookmarks") {
            effect_of(show_bookmarks(self))
        } else if same_text(command, "current") {
            let r = currently_reading(self);
            proof {
                clock = self.clock_reading().secs;
            }
            effect_of(r)
        } else if same_text(command, "edit") {
            effect_of(edit_reading(self))
        } else if same_text(command, "exit") {
            assert((EffectView::Exit, status(Ok(()))) == spec_parse(words, pos, 0));
            assert(self.position() == parse_end(words, pos, 0));
            assert((EffectView::Exit, status(Ok(()))) == spec_parse(words, pos, self.clock_reading().secs));
            assert(self.position() == parse_end(words, pos, self.clock_reading().secs));
            return (Effect::Exit, Ok(()));
        } else if same_text(command, "finish") {
            effect_of(finish_reading(self))
        } else if same_text(command, "help") {
            Effect::Help
        } else if same_text(command, "rm") {
            effect_of(remove_reading(self))
        } else if same_text(command, "reset") {
            effect_of(reset_reading(self))
        } else if same_text(command, "find") {
            effect_of(search_keyword(self))
        } else if same_text(command, "show") {
            effect_of(show_readings(self))
        } else if same_text(command, "stats") {
            let r = get_stats(self);
            proof {
                clock = self.clock_reading().secs;
            }
            effect_of(r)
        } else if same_text(command, "time") {
            Effect::BestTime
        } else if same_text(command, "undo") {
            effect_of(undo_bookmark(self))
        } else if same_text(command, "random") {
            Effect::Dispatch(Action::ReadRandom)
        } else if same_text(command, "finished") {
            Effect::Dispatch(Action::ShowFinished)
        } else if same_text(command, "last") {
            Effect::Dispatch(Action::ShowOldestRead)
        } else if same_text(command, "save") || same_text(command, "++") {
            Effect::Dispatch(Action::SaveData)
        } else if same_text(command, "unfinished") {
            Effect::Dispatch(Action::ShowUnfinished)
        } else {
            Effect::Unknown
        };
        let ghost k = spec_command(words[pos], rest, clock).1;
        assert(effect@ == spec_command(words[pos], rest, clock).0);
        assert(self.position() == pos + 1 + k);
        let result = self.last();
        assert((effect@, status(result)) == spec_parse(words, pos, clock));
        assert(self.position() == parse_end(words, pos, clock));
        assert(spec_parse(words, pos, self.clock_reading().secs) == spec_parse(words, pos, clock));
        assert(parse_end(words, pos, self.clock_reading().secs) == parse_end(words, pos, clock));
        (effect, result)
    }
}

} // verus!
