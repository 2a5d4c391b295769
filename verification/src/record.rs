//! The record codec: one task-timing entry, and its comma-separated wire
//! line.
//!
//! A line holds seven fields: index, start time, task description, elapsed
//! seconds, paused seconds, lifecycle state, and the moment the current
//! pause began.  The last two fields exist because each command runs in its
//! own short-lived process: whether an entry is paused, and since when, must
//! survive on disk, not in memory.  Decoding rejects a malformed line and
//! names the offending field; it never substitutes a default for a missing
//! or unreadable field.

use vstd::prelude::*;
use crate::clock::{TS_MAX, rfc2822, rfc2822_parse, format_rfc2822, parse_rfc2822};
use crate::text::{
    all_digits, digits_of, digits_val, free_of, join_with, split_on,
    lemma_digits_of, lemma_digits_free, lemma_join_free, lemma_join_split, lemma_join_snoc,
    parse_u64, split_str, str_eq_str, str_has_char, u64_to_string,
};

verus! {

/// The lifecycle stage of one entry: `Running ⇄ Paused → Stopped`, with
/// `Stopped` terminal.
#[derive(Clone, Copy, Debug, PartialEq, Eq, Structural)]
pub enum RecState {
    Running,
    Paused,
    Stopped,
}

/// The record field, or line shape fault, that a malformed line is charged
/// to.
#[derive(Clone, Copy, Debug, PartialEq, Eq, Structural)]
pub enum FieldId {
    FieldCount,
    Index,
    StartTime,
    ElapsedSeconds,
    PausedSeconds,
    State,
    PausedSince,
}

/// Why an entry cannot be rendered to its wire line.
#[derive(Clone, Copy, Debug, PartialEq, Eq, Structural)]
pub enum EncodeError {
    /// The index is zero; stored indices start at one.
    InvalidIndex,
    /// The start time lies outside the storable range.
    InvalidStartTime,
    /// The description holds the field separator or a line break.
    InvalidDescription,
    /// The paused-since moment is inconsistent with the state, or out of
    /// range.
    InvalidPausedSince,
}

/// One task-timing entry.
#[derive(Clone, Debug, PartialEq)]
pub struct LogEntry {
    /// 1-based position of the entry among the records in the file.
    pub index: u64,
    /// Creation time, as seconds since the Unix epoch.
    pub start_time: u64,
    /// Free-form task text; must hold neither a comma nor a line break.
    pub description: String,
    /// Total running time in seconds, written once when the entry stops.
    pub elapsed_seconds: u64,
    /// Accumulated paused time in seconds; never decreases.
    pub paused_seconds: u64,
    /// Lifecycle stage.
    pub state: RecState,
    /// The moment the current pause began; zero unless paused.
    pub paused_since: u64,
}

/// The mathematical image of one entry.
#[verifier::ext_equal]
pub ghost struct EntryV {
    pub index: int,
    pub start_time: int,
    pub description: Seq<char>,
    pub elapsed_seconds: int,
    pub paused_seconds: int,
    pub state: RecState,
    pub paused_since: int,
}

impl View for LogEntry {
    type V = EntryV;

    open spec fn view(&self) -> EntryV {
        EntryV {
            index: self.index as int,
            start_time: self.start_time as int,
            description: self.description@,
            elapsed_seconds: self.elapsed_seconds as int,
            paused_seconds: self.paused_seconds as int,
            state: self.state,
            paused_since: self.paused_since as int,
        }
    }
}

/// The machine-checkable part of an entry's validity: field ranges, a clean
/// description, and a paused-since moment that exists exactly while paused.
pub open spec fn wire_ok(e: EntryV) -> bool {
    &&& 1 <= e.index <= u64::MAX as int
    &&& 0 <= e.start_time <= TS_MAX as int
    &&& free_of(e.description, ',')
    &&& free_of(e.description, '\n')
    &&& 0 <= e.elapsed_seconds <= u64::MAX as int
    &&& 0 <= e.paused_seconds <= u64::MAX as int
    &&& (e.state is Paused ==> 0 <= e.paused_since <= TS_MAX as int)
    &&& (!(e.state is Paused) ==> e.paused_since == 0)
}

/// The rendered text of this start time is non-empty and free of the two
/// separators.  True of every storable second; rendering the time is what
/// establishes it for the proof.
pub open spec fn ts_text_ok(t: int) -> bool {
    &&& rfc2822(t).len() >= 1
    &&& free_of(rfc2822(t), ',')
    &&& free_of(rfc2822(t), '\n')
}

/// A fully valid entry: well-shaped fields whose start time renders cleanly.
pub open spec fn valid_entry(e: EntryV) -> bool {
    wire_ok(e) && ts_text_ok(e.start_time)
}

/// The wire word for a lifecycle stage.
pub open spec fn state_word(st: RecState) -> Seq<char> {
    match st {
        RecState::Running => "running"@,
        RecState::Paused => "paused"@,
        RecState::Stopped => "stopped"@,
    }
}

/// The lifecycle stage a wire word names, if any.
pub open spec fn word_state(w: Seq<char>) -> Option<RecState> {
    if w == state_word(RecState::Running) {
        Some(RecState::Running)
    } else if w == state_word(RecState::Paused) {
        Some(RecState::Paused)
    } else if w == state_word(RecState::Stopped) {
        Some(RecState::Stopped)
    } else {
        None
    }
}

/// The three state words are distinct, non-empty, and free of separators.
pub proof fn lemma_state_words()
    ensures
        forall|st: RecState| word_state(#[trigger] state_word(st)) == Some(st),
        forall|st: RecState| free_of(#[trigger] state_word(st), ',') && free_of(
            state_word(st),
            '\n',
        ) && state_word(st).len() >= 1,
{
    reveal_strlit("running");
    reveal_strlit("paused");
    reveal_strlit("stopped");
    assert(state_word(RecState::Running).len() == 7);
    assert(state_word(RecState::Paused).len() == 6);
    assert(state_word(RecState::Stopped).len() == 7);
    assert(state_word(RecState::Running)[0] == 'r');
    assert(state_word(RecState::Stopped)[0] == 's');
    assert(state_word(RecState::Running) != state_word(RecState::Stopped));
    assert(forall|st: RecState| free_of(#[trigger] state_word(st), ',') && free_of(
        state_word(st),
        '\n',
    )) by {
        assert(forall|i: int| 0 <= i < 7 ==> #[trigger] state_word(RecState::Running)[i] != ','
            && state_word(RecState::Running)[i] != '\n');
        assert(forall|i: int| 0 <= i < 6 ==> #[trigger] state_word(RecState::Paused)[i] != ','
            && state_word(RecState::Paused)[i] != '\n');
        assert(forall|i: int| 0 <= i < 7 ==> #[trigger] state_word(RecState::Stopped)[i] != ','
            && state_word(RecState::Stopped)[i] != '\n');
    }
}

/// The value of canonical decimal text, where it is such and fits `u64`.
pub open spec fn digits_opt(s: Seq<char>) -> Option<int> {
    if s.len() >= 1 && all_digits(s) && digits_val(s) <= u64::MAX as int {
        Some(digits_val(s))
    } else {
        None
    }
}

/// The seven wire fields of an entry, in line order.
pub open spec fn line_fields(e: EntryV) -> Seq<Seq<char>> {
    seq![
        digits_of(e.index),
        rfc2822(e.start_time),
        e.description,
        digits_of(e.elapsed_seconds),
        digits_of(e.paused_seconds),
        state_word(e.state),
        digits_of(e.paused_since),
    ]
}

/// The wire line of an entry: its fields joined with commas.
pub open spec fn encode_line_spec(e: EntryV) -> Seq<char> {
    join_with(line_fields(e), ',')
}

/// The first fault that stops an entry from being rendered, if any.
pub open spec fn wire_fault(e: EntryV) -> Option<EncodeError> {
    if e.index < 1 {
        Some(EncodeError::InvalidIndex)
    } else if e.start_time > TS_MAX as int {
        Some(EncodeError::InvalidStartTime)
    } else if !(free_of(e.description, ',') && free_of(e.description, '\n')) {
        Some(EncodeError::InvalidDescription)
    } else if e.state is Paused && e.paused_since > TS_MAX as int {
        Some(EncodeError::InvalidPausedSince)
    } else if !(e.state is Paused) && e.paused_since != 0 {
        Some(EncodeError::InvalidPausedSince)
    } else {
        None
    }
}

/// What decoding makes of seven already-split fields.
pub open spec fn decode_fields_spec(ps: Seq<Seq<char>>) -> Result<EntryV, FieldId>
    recommends
        ps.len() == 7,
{
    match digits_opt(ps[0]) {
        None => Err(FieldId::Index),
        Some(idx) => if idx < 1 {
            Err(FieldId::Index)
        } else {
            match rfc2822_parse(ps[1]) {
                None => Err(FieldId::StartTime),
                Some(t) => if !(0 <= t <= TS_MAX as int) {
                    Err(FieldId::StartTime)
                } else {
                    match digits_opt(ps[3]) {
                        None => Err(FieldId::ElapsedSeconds),
                        Some(el) => match digits_opt(ps[4]) {
                            None => Err(FieldId::PausedSeconds),
                            Some(pa) => match word_state(ps[5]) {
                                None => Err(FieldId::State),
                                Some(st) => match digits_opt(ps[6]) {
                                    None => Err(FieldId::PausedSince),
                                    Some(si) => if st is Paused && si > TS_MAX as int {
                                        Err(FieldId::PausedSince)
                                    } else if !(st is Paused) && si != 0 {
                                        Err(FieldId::PausedSince)
                                    } else {
                                        Ok(EntryV {
                                            index: idx,
                                            start_time: t,
                                            description: ps[2],
                                            elapsed_seconds: el,
                                            paused_seconds: pa,
                                            state: st,
                                            paused_since: si,
                                        })
                                    },
                                },
                            },
                        },
                    }
                },
            }
        },
    }
}

/// What decoding makes of one wire line.
pub open spec fn decode_line_spec(s: Seq<char>) -> Result<EntryV, FieldId> {
    let ps = split_on(s, ',');
    if ps.len() != 7 {
        Err(FieldId::FieldCount)
    } else {
        decode_fields_spec(ps)
    }
}

/// A valid entry's wire line splits back into exactly its seven fields, and
/// each numeric, word or time field reads back as what was written.
pub proof fn lemma_encode_fields(v: EntryV)
    requires
        valid_entry(v),
    ensures
        split_on(encode_line_spec(v), ',') =~~= line_fields(v),
        line_fields(v).len() == 7,
        digits_opt(line_fields(v)[0]) == Some(v.index),
        line_fields(v)[1] == rfc2822(v.start_time),
        line_fields(v)[2] == v.description,
        digits_opt(line_fields(v)[3]) == Some(v.elapsed_seconds),
        digits_opt(line_fields(v)[4]) == Some(v.paused_seconds),
        word_state(line_fields(v)[5]) == Some(v.state),
        digits_opt(line_fields(v)[6]) == Some(v.paused_since),
{
    lemma_digits_of(v.index);
    lemma_digits_free(v.index);
    lemma_digits_of(v.elapsed_seconds);
    lemma_digits_free(v.elapsed_seconds);
    lemma_digits_of(v.paused_seconds);
    lemma_digits_free(v.paused_seconds);
    lemma_digits_of(v.paused_since);
    lemma_digits_free(v.paused_since);
    lemma_state_words();
    let fs = line_fields(v);
    assert(forall|k: int| 0 <= k < fs.len() ==> free_of(#[trigger] fs[k], ',')) by {
        assert(fs[0] == digits_of(v.index));
        assert(fs[1] == rfc2822(v.start_time));
        assert(fs[2] == v.description);
        assert(fs[3] == digits_of(v.elapsed_seconds));
        assert(fs[4] == digits_of(v.paused_seconds));
        assert(fs[5] == state_word(v.state));
        assert(fs[6] == digits_of(v.paused_since));
    }
    lemma_join_split(fs, ',');
}

/// A valid entry's wire line holds no line break: joining on the field
/// separator introduces none, and every field is free of them.
pub proof fn lemma_encode_line_free(v: EntryV)
    requires
        valid_entry(v),
    ensures
        free_of(encode_line_spec(v), '\n'),
{
    lemma_digits_free(v.index);
    lemma_digits_free(v.elapsed_seconds);
    lemma_digits_free(v.paused_seconds);
    lemma_digits_free(v.paused_since);
    lemma_state_words();
    let fs = line_fields(v);
    assert(forall|k: int| 0 <= k < fs.len() ==> free_of(#[trigger] fs[k], '\n')) by {
        assert(fs[0] == digits_of(v.index));
        assert(fs[1] == rfc2822(v.start_time));
        assert(fs[2] == v.description);
        assert(fs[3] == digits_of(v.elapsed_seconds));
        assert(fs[4] == digits_of(v.paused_seconds));
        assert(fs[5] == state_word(v.state));
        assert(fs[6] == digits_of(v.paused_since));
    }
    lemma_join_free(fs, ',', '\n');
}

/// Renders one entry to its wire line, rejecting an entry that the line
/// could not represent.  Success comes exactly on a well-shaped entry, and
/// a successful result is the entry's canonical line.
pub fn encode_line(e: &LogEntry) -> (r: Result<String, EncodeError>)
    ensures
        match r {
            Ok(out) => wire_fault(e@) is None && wire_ok(e@) && valid_entry(e@) && out@
                == encode_line_spec(e@),
            Err(err) => wire_fault(e@) == Some(err) && !wire_ok(e@),
        },
{
    if e.index < 1 {
        return Err(EncodeError::InvalidIndex);
    }
    if e.start_time > TS_MAX {
        return Err(EncodeError::InvalidStartTime);
    }
    if str_has_char(e.description.as_str(), ',') || str_has_char(e.description.as_str(), '\n') {
        return Err(EncodeError::InvalidDescription);
    }
    let paused = matches!(e.state, RecState::Paused);
    proof {
        assert(paused == (e@.state is Paused));
    }
    if paused && e.paused_since > TS_MAX {
        return Err(EncodeError::InvalidPausedSince);
    }
    if !paused && e.paused_since != 0 {
        return Err(EncodeError::InvalidPausedSince);
    }
    proof {
        reveal_strlit(",");
        lemma_state_words();
    }
    let ghost fs = line_fields(e@);
    let mut out = u64_to_string(e.index);
    let ghost done: Seq<Seq<char>> = seq![fs[0]];
    proof {
        assert(out@ =~= join_with(done, ','));
    }
    let ts = format_rfc2822(e.start_time);
    out.append(",");
    out.append(ts.as_str());
    proof {
        lemma_join_snoc(done, fs[1], ',');
        assert(out@ =~= join_with(done.push(fs[1]), ','));
    }
    let ghost done = done.push(fs[1]);
    out.append(",");
    out.append(e.description.as_str());
    proof {
        lemma_join_snoc(done, fs[2], ',');
        assert(out@ =~= join_with(done.push(fs[2]), ','));
    }
    let ghost done = done.push(fs[2]);
    let el = u64_to_string(e.elapsed_seconds);
    out.append(",");
    out.append(el.as_str());
    proof {
        lemma_join_snoc(done, fs[3], ',');
        assert(out@ =~= join_with(done.push(fs[3]), ','));
    }
    let ghost done = done.push(fs[3]);
    let pa = u64_to_string(e.paused_seconds);
    out.append(",");
    out.append(pa.as_str());
    proof {
        lemma_join_snoc(done, fs[4], ',');
        assert(out@ =~= join_with(done.push(fs[4]), ','));
    }
    let ghost done = done.push(fs[4]);
    out.append(",");
    match e.state {
        RecState::Running => out.append("running"),
        RecState::Paused => out.append("paused"),
        RecState::Stopped => out.append("stopped"),
    }
    proof {
        lemma_join_snoc(done, fs[5], ',');
        assert(out@ =~= join_with(done.push(fs[5]), ','));
    }
    let ghost done = done.push(fs[5]);
    let si = u64_to_string(e.paused_since);
    out.append(",");
    out.append(si.as_str());
    proof {
        lemma_join_snoc(done, fs[6], ',');
        assert(out@ =~= join_with(done.push(fs[6]), ','));
        assert(done.push(fs[6]) =~~= fs);
        assert(out@ =~= encode_line_spec(e@));
    }
    Ok(out)
}

/// Reads one wire line back into an entry.  The outcome is exactly what the
/// line determines, and decoding inverts encoding: the line of any valid
/// entry decodes to that entry unchanged.
pub fn decode_line(s: &str) -> (r: Result<LogEntry, FieldId>)
    ensures
        match r {
            Ok(e) => decode_line_spec(s@) == Ok::<EntryV, FieldId>(e@),
            Err(f) => decode_line_spec(s@) == Err::<EntryV, FieldId>(f),
        },
        forall|v: EntryV|
            valid_entry(v) && s@ == #[trigger] encode_line_spec(v) ==> (r matches Ok(e) && e@
                == v),
        match r {
            Ok(e) => free_of(s@, '\n') ==> wire_ok(e@),
            Err(_) => true,
        },
{
    let fields = split_str(s, ',');
    proof {
        assert forall|k: int| 0 <= k < fields@.len() implies #[trigger] fields@[k]@ == split_on(
            s@,
            ',',
        )[k] by {
            assert(fields@.map_values(|t: &str| t@)[k] == fields@[k]@);
        }
    }
    if fields.len() != 7 {
        proof {
            assert forall|v: EntryV|
                valid_entry(v) && s@ == #[trigger] encode_line_spec(v) implies false by {
                lemma_encode_fields(v);
            }
        }
        return Err(FieldId::FieldCount);
    }
    let ix = match parse_u64(fields[0]) {
        Some(ix) => ix,
        None => {
            proof {
                assert forall|v: EntryV|
                    valid_entry(v) && s@ == #[trigger] encode_line_spec(v) implies false by {
                    lemma_encode_fields(v);
                }
            }
            return Err(FieldId::Index);
        },
    };
    if ix < 1 {
        proof {
            assert forall|v: EntryV|
                valid_entry(v) && s@ == #[trigger] encode_line_spec(v) implies false by {
                lemma_encode_fields(v);
            }
        }
        return Err(FieldId::Index);
    }
    let ts = match parse_rfc2822(fields[1]) {
        Some(t) => t,
        None => {
            proof {
                assert forall|v: EntryV|
                    valid_entry(v) && s@ == #[trigger] encode_line_spec(v) implies false by {
                    lemma_encode_fields(v);
                }
            }
            return Err(FieldId::StartTime);
        },
    };
    if ts < 0 || ts > TS_MAX as i64 {
        proof {
            assert forall|v: EntryV|
                valid_entry(v) && s@ == #[trigger] encode_line_spec(v) implies false by {
                lemma_encode_fields(v);
            }
        }
        return Err(FieldId::StartTime);
    }
    let el = match parse_u64(fields[3]) {
        Some(el) => el,
        None => {
            proof {
                assert forall|v: EntryV|
                    valid_entry(v) && s@ == #[trigger] encode_line_spec(v) implies false by {
                    lemma_encode_fields(v);
                }
            }
            return Err(FieldId::ElapsedSeconds);
        },
    };
    let pa = match parse_u64(fields[4]) {
        Some(pa) => pa,
        None => {
            proof {
                assert forall|v: EntryV|
                    valid_entry(v) && s@ == #[trigger] encode_line_spec(v) implies false by {
                    lemma_encode_fields(v);
                }
            }
            return Err(FieldId::PausedSeconds);
        },
    };
    let st = if str_eq_str(fields[5], "running") {
        RecState::Running
    } else if str_eq_str(fields[5], "paused") {
        RecState::Paused
    } else if str_eq_str(fields[5], "stopped") {
        RecState::Stopped
    } else {
        proof {
            lemma_state_words();
            assert forall|v: EntryV|
                valid_entry(v) && s@ == #[trigger] encode_line_spec(v) implies false by {
                lemma_encode_fields(v);
            }
        }
        return Err(FieldId::State);
    };
    proof {
        lemma_state_words();
        assert(word_state(fields@[5]@) == Some(st));
    }
    let si = match parse_u64(fields[6]) {
        Some(si) => si,
        None => {
            proof {
                assert forall|v: EntryV|
                    valid_entry(v) && s@ == #[trigger] encode_line_spec(v) implies false by {
                    lemma_encode_fields(v);
                }
            }
            return Err(FieldId::PausedSince);
        },
    };
    let paused = matches!(st, RecState::Paused);
    if paused && si > TS_MAX {
        proof {
            assert forall|v: EntryV|
                valid_entry(v) && s@ == #[trigger] encode_line_spec(v) implies false by {
                lemma_encode_fields(v);
            }
        }
        return Err(FieldId::PausedSince);
    }
    if !paused && si != 0 {
        proof {
            assert forall|v: EntryV|
                valid_entry(v) && s@ == #[trigger] encode_line_spec(v) implies false by {
                lemma_encode_fields(v);
            }
        }
        return Err(FieldId::PausedSince);
    }
    let entry = LogEntry {
        index: ix,
        start_time: ts as u64,
        description: fields[2].to_owned(),
        elapsed_seconds: el,
        paused_seconds: pa,
        state: st,
        paused_since: si,
    };
    proof {
        assert(decode_line_spec(s@) == Ok::<EntryV, FieldId>(entry@));
        crate::text::lemma_split_on_parts(s@, ',');
        assert(free_of(entry@.description, ','));
        if free_of(s@, '\n') {
            crate::text::lemma_split_on_free_other(s@, ',', '\n');
            assert(free_of(entry@.description, '\n'));
        }
        assert forall|v: EntryV|
            valid_entry(v) && s@ == #[trigger] encode_line_spec(v) implies entry@ == v by {
            lemma_encode_fields(v);
            assert(split_on(s@, ',') =~~= line_fields(v));
            assert(entry@ =~= v);
        }
    }
    Ok(entry)
}

} // verus!
