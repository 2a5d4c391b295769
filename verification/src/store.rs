//! The log store: the full record collection of one log file, with append,
//! find, replace, delete and list, and the codec for the whole file.
//!
//! Every mutation works on the whole collection; the caller reads the file
//! into text, hands it over, and writes the returned text back.  The first
//! line of a non-empty file is a fixed header naming the fields; each later
//! line is one record, and every line ends with a line break.
//!
//! Indices are contiguous: the records of a well-formed file are numbered
//! `1..=n` in file order.  Deleting renumbers every following record, so an
//! index is a position, not a stable identifier across deletions.

use vstd::prelude::*;
use crate::record::{
    EncodeError, EntryV, FieldId, LogEntry, RecState, decode_line, decode_line_spec, encode_line,
    encode_line_spec, lemma_encode_line_free, valid_entry, wire_ok,
};
use crate::text::lemma_join_split;
use crate::text::{
    free_of, join_with, split_on, lemma_join_snoc, lemma_split_on_parts, split_str, str_eq_str,
};

verus! {

/// Why an addressed record could not be found.
#[derive(Clone, Copy, Debug, PartialEq, Eq, Structural)]
pub enum StoreError {
    /// No record carries the addressed index.
    NotFound,
}

/// Why a file's text is not a well-formed log.
#[derive(Clone, Copy, Debug, PartialEq, Eq, Structural)]
pub enum DecodeError {
    /// The first line is not the expected header.
    BadHeader,
    /// The text does not end with a line break after its last line.
    MissingNewline,
    /// A record line does not decode; `line` counts from one, the header
    /// being line one.
    Malformed { line: u64, field: FieldId },
}

/// The header line of the file.
pub open spec fn header_text() -> Seq<char> {
    "Index,Start Time,Task Description,Elapsed Time (seconds),Paused Duration (seconds),State,Paused Since"@
}

/// A well-formed record collection: every entry is well-shaped and the
/// indices run contiguously from one in file order.
pub open spec fn wf(b: Seq<EntryV>) -> bool {
    forall|k: int|
        0 <= k < b.len() ==> wire_ok(#[trigger] b[k]) && b[k].index == k + 1
}

/// A well-formed collection whose start times also render cleanly.
pub open spec fn valid_book(b: Seq<EntryV>) -> bool {
    wf(b) && forall|k: int| 0 <= k < b.len() ==> valid_entry(#[trigger] b[k])
}

/// The line segments of the whole file: the header, one line per record,
/// and the empty segment after the final line break.
pub open spec fn file_parts(b: Seq<EntryV>) -> Seq<Seq<char>> {
    seq![header_text()] + b.map_values(|e: EntryV| encode_line_spec(e)) + seq![
        Seq::<char>::empty(),
    ]
}

/// The text of the whole file.
pub open spec fn encode_file_spec(b: Seq<EntryV>) -> Seq<char> {
    join_with(file_parts(b), '\n')
}

/// What decoding makes of the record lines `ls[k..]`, short of the final
/// empty segment, when the next expected index is `k`.
pub open spec fn decode_records_spec(ls: Seq<Seq<char>>, k: int) -> Result<Seq<EntryV>, DecodeError>
    recommends
        1 <= k <= ls.len() - 1,
    decreases ls.len() - k,
{
    if k >= ls.len() - 1 {
        Ok(Seq::<EntryV>::empty())
    } else {
        match decode_line_spec(ls[k]) {
            Err(f) => Err(DecodeError::Malformed { line: (k + 1) as u64, field: f }),
            Ok(e) => if e.index != k {
                Err(DecodeError::Malformed { line: (k + 1) as u64, field: FieldId::Index })
            } else {
                match decode_records_spec(ls, k + 1) {
                    Err(er) => Err(er),
                    Ok(rest) => Ok(seq![e] + rest),
                }
            },
        }
    }
}

/// What decoding makes of a whole file's text.  Empty text is an empty log;
/// any other text must have the header, a final line break, and contiguous
/// well-formed records.
pub open spec fn decode_file_spec(s: Seq<char>) -> Result<Seq<EntryV>, DecodeError> {
    if s.len() == 0 {
        Ok(Seq::<EntryV>::empty())
    } else {
        let ls = split_on(s, '\n');
        if ls[0] != header_text() {
            Err(DecodeError::BadHeader)
        } else if ls.len() < 2 || ls.last() != Seq::<char>::empty() {
            Err(DecodeError::MissingNewline)
        } else {
            decode_records_spec(ls, 1)
        }
    }
}

/// The file text of a valid collection splits back on line breaks into
/// exactly its line segments: the header, one line per record, and the
/// final empty segment.
pub proof fn lemma_encode_file_parts(b: Seq<EntryV>)
    requires
        valid_book(b),
    ensures
        split_on(encode_file_spec(b), '\n') =~~= file_parts(b),
        file_parts(b).len() == b.len() + 2,
        file_parts(b)[0] == header_text(),
        forall|k: int|
            1 <= k <= b.len() ==> #[trigger] file_parts(b)[k] == encode_line_spec(b[k - 1]),
        file_parts(b).last() == Seq::<char>::empty(),
        encode_file_spec(b).len() >= 1,
{
    reveal_strlit(
        "Index,Start Time,Task Description,Elapsed Time (seconds),Paused Duration (seconds),State,Paused Since",
    );
    let ps = file_parts(b);
    assert(ps[0] == header_text());
    assert(forall|k: int|
        1 <= k <= b.len() ==> #[trigger] ps[k] == encode_line_spec(b[k - 1])) by {
        assert(forall|k: int|
            1 <= k <= b.len() ==> b.map_values(|e: EntryV| encode_line_spec(e))[k - 1]
                == encode_line_spec(#[trigger] b[k - 1]));
    }
    assert forall|k: int| 0 <= k < ps.len() implies free_of(#[trigger] ps[k], '\n') by {
        if k == 0 {
            assert(free_of(header_text(), '\n'));
        } else if k <= b.len() {
            assert(valid_entry(b[k - 1]));
            lemma_encode_line_free(b[k - 1]);
        } else {
            assert(ps[k] =~= Seq::<char>::empty());
        }
    }
    lemma_join_split(ps, '\n');
    assert(encode_file_spec(b).len() >= 1) by {
        assert(ps.len() >= 2);
        assert(encode_file_spec(b) =~= ps[0] + seq!['\n'] + crate::text::join_with(
            ps.drop_first(),
            '\n',
        ));
    }
}

/// The record collection of one log file.
#[derive(Debug, PartialEq)]
pub struct LogBook {
    entries: Vec<LogEntry>,
}

impl View for LogBook {
    type V = Seq<EntryV>;

    closed spec fn view(&self) -> Seq<EntryV> {
        self.entries@.map_values(|e: LogEntry| e@)
    }
}

impl LogBook {
    /// An empty log.
    pub fn new() -> (r: LogBook)
        ensures
            r@ =~= Seq::<EntryV>::empty(),
            wf(r@),
    {
        LogBook { entries: Vec::new() }
    }

    /// The records in file order, oldest first.
    pub fn list(&self) -> (r: &Vec<LogEntry>)
        ensures
            r@.map_values(|e: LogEntry| e@) == self@,
    {
        &self.entries
    }

    /// How many records the log holds.
    pub fn len(&self) -> (r: usize)
        ensures
            r == self@.len(),
    {
        self.entries.len()
    }

    /// The record at 1-based `index`, if the log holds one.
    pub fn find(&self, index: u64) -> (r: Option<&LogEntry>)
        requires
            wf(self@),
        ensures
            match r {
                Some(e) => 1 <= index <= self@.len() && e@ == self@[index - 1],
                None => !(1 <= index <= self@.len()),
            },
    {
        if index < 1 || index > self.entries.len() as u64 {
            return None;
        }
        let k = (index - 1) as usize;
        let e = &self.entries[k];
        proof {
            assert(self@[index - 1] == self.entries@[index - 1]@);
        }
        Some(e)
    }

    /// The index of the most recent record, if any: under contiguity, the
    /// record count.
    pub fn last_index(&self) -> (r: Option<u64>)
        requires
            wf(self@),
            self@.len() <= u64::MAX,
        ensures
            match r {
                Some(ix) => self@.len() >= 1 && ix == self@.len() && ix == self@[self@.len()
                    - 1].index,
                None => self@.len() == 0,
            },
    {
        let n = self.entries.len();
        if n == 0 {
            None
        } else {
            proof {
                assert(self@[n - 1] == self.entries@[n - 1]@);
            }
            Some(n as u64)
        }
    }

    /// Appends a fresh record for `description`, started at `now`, and
    /// returns its assigned index: one more than the count of records.  The
    /// new record starts running with no elapsed and no paused time.
    /// Rejects a description holding the field separator or a line break.
    pub fn append(&mut self, description: String, now: u64) -> (r: Result<u64, EncodeError>)
        requires
            wf(old(self)@),
            old(self)@.len() + 1 <= u64::MAX,
            now <= crate::clock::TS_MAX,
        ensures
            wf(final(self)@),
            match r {
                Ok(ix) => free_of(description@, ',') && free_of(description@, '\n') && ix == old(
                    self,
                )@.len() + 1 && final(self)@ =~= old(self)@.push(
                    EntryV {
                        index: old(self)@.len() as int + 1,
                        start_time: now as int,
                        description: description@,
                        elapsed_seconds: 0,
                        paused_seconds: 0,
                        state: RecState::Running,
                        paused_since: 0,
                    },
                ),
                Err(err) => err == EncodeError::InvalidDescription && !(free_of(description@, ',')
                    && free_of(description@, '\n')) && final(self)@ == old(self)@,
            },
    {
        if crate::text::str_has_char(description.as_str(), ',') || crate::text::str_has_char(
            description.as_str(),
            '\n',
        ) {
            return Err(EncodeError::InvalidDescription);
        }
        let ix = (self.entries.len() as u64) + 1;
        let entry = LogEntry {
            index: ix,
            start_time: now,
            description,
            elapsed_seconds: 0,
            paused_seconds: 0,
            state: RecState::Running,
            paused_since: 0,
        };
        self.entries.push(entry);
        proof {
            assert(self@ =~= old(self)@.push(
                EntryV {
                    index: old(self)@.len() as int + 1,
                    start_time: now as int,
                    description: description@,
                    elapsed_seconds: 0,
                    paused_seconds: 0,
                    state: RecState::Running,
                    paused_since: 0,
                },
            ));
        }
        Ok(ix)
    }

    /// Replaces the record at `index` with `entry`, which must carry the
    /// same index and be well-shaped; every other record is untouched.
    pub fn replace(&mut self, index: u64, entry: LogEntry) -> (r: Result<(), StoreError>)
        requires
            wf(old(self)@),
            wire_ok(entry@),
            entry@.index == index,
        ensures
            wf(final(self)@),
            match r {
                Ok(()) => 1 <= index <= old(self)@.len() && final(self)@ =~= old(self)@.update(
                    index - 1,
                    entry@,
                ),
                Err(StoreError::NotFound) => !(1 <= index <= old(self)@.len()) && final(self)@ == old(
                    self,
                )@,
            },
    {
        if index < 1 || index > self.entries.len() as u64 {
            return Err(StoreError::NotFound);
        }
        let k = (index - 1) as usize;
        self.entries.set(k, entry);
        proof {
            assert forall|i: int| 0 <= i < self@.len() implies #[trigger] self@[i] == old(
                self,
            )@.update(index - 1, entry@)[i] by {
                assert(self@[i] == self.entries@[i]@);
                assert(old(self)@[i] == old(self).entries@[i]@);
            }
            assert(self@ =~= old(self)@.update(index - 1, entry@));
        }
        Ok(())
    }

    /// Removes the record at `index` and renumbers every following record,
    /// so that indices stay contiguous from one.
    pub fn delete(&mut self, index: u64) -> (r: Result<(), StoreError>)
        requires
            wf(old(self)@),
        ensures
            wf(final(self)@),
            match r {
                Ok(()) => 1 <= index <= old(self)@.len() && final(self)@.len() == old(self)@.len() - 1
                    && (forall|k: int|
                    0 <= k < index - 1 ==> final(self)@[k] == old(self)@[k]) && (forall|k: int|
                    index - 1 <= k < final(self)@.len() ==> #[trigger] final(self)@[k] == (EntryV {
                        index: k + 1,
                        ..old(self)@[k + 1]
                    })),
                Err(StoreError::NotFound) => !(1 <= index <= old(self)@.len()) && final(self)@ == old(
                    self,
                )@,
            },
    {
        if index < 1 || index > self.entries.len() as u64 {
            return Err(StoreError::NotFound);
        }
        let k = (index - 1) as usize;
        self.entries.remove(k);
        proof {
            assert(forall|i: int|
                0 <= i < k ==> #[trigger] self.entries@[i]@ == old(self)@[i]);
            assert(forall|i: int|
                k <= i < self.entries@.len() ==> #[trigger] self.entries@[i]@ == old(self)@[i + 1]);
        }
        let mut j = k;
        while j < self.entries.len()
            invariant
                k <= j <= self.entries.len(),
                self.entries@.len() == old(self)@.len() - 1,
                forall|i: int| 0 <= i < k ==> self.entries@[i]@ == old(self)@[i],
                forall|i: int|
                    k <= i < j ==> #[trigger] self.entries@[i]@ == (EntryV {
                        index: i + 1,
                        ..old(self)@[i + 1]
                    }),
                forall|i: int|
                    j <= i < self.entries@.len() ==> #[trigger] self.entries@[i]@ == old(self)@[i
                        + 1],
                forall|i: int|
                    0 <= i < self.entries@.len() ==> wire_ok(#[trigger] self.entries@[i]@),
            decreases self.entries.len() - j,
        {
            let e = &self.entries[j];
            let renumbered = LogEntry {
                index: (j as u64) + 1,
                start_time: e.start_time,
                description: e.description.clone(),
                elapsed_seconds: e.elapsed_seconds,
                paused_seconds: e.paused_seconds,
                state: e.state,
                paused_since: e.paused_since,
            };
            proof {
                assert(e@ == old(self)@[j + 1]);
                assert(renumbered@ =~= (EntryV { index: j + 1, ..old(self)@[j + 1] }));
                assert(wire_ok(old(self)@[j + 1]));
                assert(wire_ok(renumbered@));
            }
            self.entries.set(j, renumbered);
            j += 1;
        }
        proof {
            assert forall|i: int| 0 <= i < self@.len() implies wire_ok(#[trigger] self@[i])
                && self@[i].index == i + 1 by {
                assert(self@[i] == self.entries@[i]@);
                if i < k {
                    assert(self.entries@[i]@ == old(self)@[i]);
                    assert(old(self)@[i].index == i + 1);
                }
            }
            assert(forall|i: int|
                0 <= i < self@.len() ==> #[trigger] self@[i] == self.entries@[i]@);
        }
        Ok(())
    }

    /// Renders the whole log to file text: the header, one line per record,
    /// each line ended by a line break.  Succeeds exactly where every record
    /// is well-shaped.
    pub fn encode(&self) -> (r: Result<String, EncodeError>)
        ensures
            match r {
                Ok(out) => out@ == encode_file_spec(self@) && (forall|k: int|
                    0 <= k < self@.len() ==> valid_entry(#[trigger] self@[k])),
                Err(_) => !(forall|k: int| 0 <= k < self@.len() ==> wire_ok(#[trigger] self@[k])),
            },
    {
        let header = "Index,Start Time,Task Description,Elapsed Time (seconds),Paused Duration (seconds),State,Paused Since";
        let mut out: String = header.to_owned();
        let ghost lines = self@.map_values(|e: EntryV| encode_line_spec(e));
        let ghost mut done: Seq<Seq<char>> = seq![header_text()];
        proof {
            assert(out@ =~= join_with(done, '\n'));
        }
        let mut k: usize = 0;
        while k < self.entries.len()
            invariant
                k <= self.entries.len(),
                lines == self@.map_values(|e: EntryV| encode_line_spec(e)),
                self@.len() == self.entries@.len(),
                done =~~= seq![header_text()] + lines.take(k as int),
                out@ == join_with(done, '\n'),
                forall|i: int| 0 <= i < k ==> valid_entry(#[trigger] self@[i]),
            decreases self.entries.len() - k,
        {
            proof {
                assert(self@[k as int] == self.entries@[k as int]@);
            }
            let line = match encode_line(&self.entries[k]) {
                Ok(line) => line,
                Err(err) => {
                    proof {
                        assert(!wire_ok(self@[k as int]));
                    }
                    return Err(err);
                },
            };
            proof {
                reveal_strlit("\n");
                lemma_join_snoc(done, line@, '\n');
                assert(lines[k as int] == encode_line_spec(self@[k as int]));
            }
            out.append("\n");
            out.append(line.as_str());
            proof {
                assert(out@ =~= join_with(done.push(line@), '\n'));
                assert(done.push(line@) =~~= seq![header_text()] + lines.take(k + 1)) by {
                    assert(lines.take(k + 1) =~~= lines.take(k as int).push(lines[k as int]));
                }
            }
            proof {
                done = done.push(line@);
            }
            k += 1;
        }
        proof {
            assert(lines.take(self@.len() as int) =~~= lines);
        }
        let ghost done_all = seq![header_text()] + lines;
        proof {
            assert(done =~~= done_all);
            reveal_strlit("\n");
            lemma_join_snoc(done_all, Seq::<char>::empty(), '\n');
        }
        out.append("\n");
        proof {
            assert(out@ =~= join_with(done_all.push(Seq::<char>::empty()), '\n'));
            assert(done_all.push(Seq::<char>::empty()) =~~= file_parts(self@));
        }
        Ok(out)
    }

    /// Reads file text back into a log.  The outcome is exactly what the
    /// text determines: empty text is an empty log, and any other text must
    /// carry the header, a final line break, and well-formed records
    /// numbered contiguously from one.  Decoding inverts encoding: the text
    /// of any valid collection decodes to that collection unchanged.
    pub fn decode(text: &str) -> (r: Result<LogBook, DecodeError>)
        ensures
            match r {
                Ok(book) => decode_file_spec(text@) == Ok::<Seq<EntryV>, DecodeError>(book@) && wf(
                    book@,
                ),
                Err(er) => decode_file_spec(text@) == Err::<Seq<EntryV>, DecodeError>(er),
            },
            forall|b: Seq<EntryV>|
                valid_book(b) && text@ == #[trigger] encode_file_spec(b) ==> (r matches Ok(book)
                    && book@ == b),
    {
        if text.unicode_len() == 0 {
            let book = LogBook { entries: Vec::new() };
            proof {
                assert(book@ =~= Seq::<EntryV>::empty());
                assert forall|b: Seq<EntryV>|
                    valid_book(b) && text@ == #[trigger] encode_file_spec(b) implies false by {
                    lemma_encode_file_parts(b);
                }
            }
            return Ok(book);
        }
        let lines = split_str(text, '\n');
        proof {
            assert forall|i: int| 0 <= i < lines@.len() implies #[trigger] lines@[i]@ == split_on(
                text@,
                '\n',
            )[i] by {
                assert(lines@.map_values(|t: &str| t@)[i] == lines@[i]@);
            }
            lemma_split_on_parts(text@, '\n');
        }
        let header = "Index,Start Time,Task Description,Elapsed Time (seconds),Paused Duration (seconds),State,Paused Since";
        if !str_eq_str(lines[0], header) {
            proof {
                assert forall|b: Seq<EntryV>|
                    valid_book(b) && text@ == #[trigger] encode_file_spec(b) implies false by {
                    lemma_encode_file_parts(b);
                    assert(split_on(text@, '\n')[0] == header_text());
                }
            }
            return Err(DecodeError::BadHeader);
        }
        if lines.len() < 2 || lines[lines.len() - 1].unicode_len() != 0 {
            proof {
                if lines@.len() >= 2 {
                    assert(split_on(text@, '\n').last() != Seq::<char>::empty());
                }
                assert forall|b: Seq<EntryV>|
                    valid_book(b) && text@ == #[trigger] encode_file_spec(b) implies false by {
                    lemma_encode_file_parts(b);
                }
            }
            return Err(DecodeError::MissingNewline);
        }
        let ghost ls = split_on(text@, '\n');
        proof {
            assert(ls.last() =~= Seq::<char>::empty());
            assert(text@.len() != 0);
            assert(ls[0] == header_text());
            assert(decode_file_spec(text@) == decode_records_spec(ls, 1));
        }
        let mut entries: Vec<LogEntry> = Vec::new();
        proof {
            assert forall|b: Seq<EntryV>|
                valid_book(b) && text@ == #[trigger] encode_file_spec(b) implies (b.len()
                    == ls.len() - 2 && b.take(0) =~= entries@.map_values(|e: LogEntry| e@)) by {
                lemma_encode_file_parts(b);
            }
        }
        let mut k: usize = 1;
        while k < lines.len() - 1
            invariant
                1 <= k <= lines@.len() - 1,
                lines@.len() >= 2,
                ls == split_on(text@, '\n'),
                ls.len() == lines@.len(),
                decode_file_spec(text@) == decode_records_spec(ls, 1),
                forall|i: int| 0 <= i < lines@.len() ==> #[trigger] lines@[i]@ == ls[i],
                forall|i: int| 0 <= i < ls.len() ==> free_of(#[trigger] ls[i], '\n'),
                entries@.len() == k - 1,
                forall|i: int|
                    0 <= i < entries@.len() ==> wire_ok(#[trigger] entries@[i]@) && entries@[i]@.index
                        == i + 1,
                (match decode_records_spec(ls, k as int) {
                    Ok(rest) => decode_records_spec(ls, 1) == Ok::<Seq<EntryV>, DecodeError>(
                        entries@.map_values(|e: LogEntry| e@) + rest,
                    ),
                    Err(er) => decode_records_spec(ls, 1) == Err::<Seq<EntryV>, DecodeError>(er),
                }),
                forall|b: Seq<EntryV>|
                    valid_book(b) && text@ == #[trigger] encode_file_spec(b) ==> (b.len()
                        == ls.len() - 2 && b.take(k - 1) =~= entries@.map_values(
                        |e: LogEntry| e@,
                    )),
            decreases lines@.len() - k,
        {
            let e = match decode_line(lines[k]) {
                Ok(e) => e,
                Err(f) => {
                    proof {
                        assert(decode_line_spec(ls[k as int]) == Err::<EntryV, FieldId>(f));
                        assert(decode_records_spec(ls, k as int) == Err::<Seq<EntryV>, DecodeError>(
                            DecodeError::Malformed { line: (k + 1) as u64, field: f },
                        ));
                        assert forall|b: Seq<EntryV>|
                            valid_book(b) && text@ == #[trigger] encode_file_spec(b) implies false by {
                            lemma_encode_file_parts(b);
                            assert(ls[k as int] == encode_line_spec(b[k - 1]));
                            assert(valid_entry(b[k - 1]));
                        }
                    }
                    return Err(DecodeError::Malformed { line: (k as u64) + 1, field: f });
                },
            };
            if e.index != k as u64 {
                proof {
                    assert(decode_line_spec(ls[k as int]) == Ok::<EntryV, FieldId>(e@));
                    assert(e@.index != k as int);
                    assert(decode_records_spec(ls, k as int) == Err::<Seq<EntryV>, DecodeError>(
                        DecodeError::Malformed { line: (k + 1) as u64, field: FieldId::Index },
                    ));
                    assert forall|b: Seq<EntryV>|
                        valid_book(b) && text@ == #[trigger] encode_file_spec(b) implies false by {
                        lemma_encode_file_parts(b);
                        assert(ls[k as int] == encode_line_spec(b[k - 1]));
                        assert(valid_entry(b[k - 1]));
                        assert(e@ == b[k - 1]);
                        assert(b[k - 1].index == k as int);
                    }
                }
                return Err(DecodeError::Malformed { line: (k as u64) + 1, field: FieldId::Index });
            }
            proof {
                assert(free_of(ls[k as int], '\n'));
                assert(wire_ok(e@));
                assert(decode_line_spec(ls[k as int]) == Ok::<EntryV, FieldId>(e@));
                assert(e@.index == k as int);
                let views = entries@.map_values(|q: LogEntry| q@);
                let views2 = entries@.push(e).map_values(|q: LogEntry| q@);
                assert(views2 =~= views.push(e@));
                let next = decode_records_spec(ls, k as int + 1);
                assert(decode_records_spec(ls, k as int) == (match next {
                    Err(er) => Err::<Seq<EntryV>, DecodeError>(er),
                    Ok(rest) => Ok::<Seq<EntryV>, DecodeError>(seq![e@] + rest),
                }));
                if next is Ok {
                    let rest = next->Ok_0;
                    assert(views2 + rest =~= views + (seq![e@] + rest));
                }
                assert forall|b: Seq<EntryV>|
                    valid_book(b) && text@ == #[trigger] encode_file_spec(b) implies (b.len()
                        == ls.len() - 2 && b.take(k as int) =~= entries@.push(e).map_values(
                        |q: LogEntry| q@,
                    )) by {
                    lemma_encode_file_parts(b);
                    assert(ls[k as int] == encode_line_spec(b[k - 1]));
                    assert(valid_entry(b[k - 1]));
                    assert(e@ == b[k - 1]);
                    assert(b.take(k - 1) =~= entries@.map_values(|q: LogEntry| q@));
                    assert(b.take(k as int) =~= b.take(k - 1).push(b[k - 1]));
                    assert(entries@.push(e).map_values(|q: LogEntry| q@) =~= entries@.map_values(
                        |q: LogEntry| q@,
                    ).push(e@));
                }
            }
            entries.push(e);
            k += 1;
        }
        let book = LogBook { entries };
        proof {
            assert(decode_records_spec(ls, k as int) == Ok::<Seq<EntryV>, DecodeError>(
                Seq::<EntryV>::empty(),
            ));
            assert(book@ + Seq::<EntryV>::empty() =~= book@);
            assert(decode_file_spec(text@) == Ok::<Seq<EntryV>, DecodeError>(book@));
            assert forall|i: int| 0 <= i < book@.len() implies wire_ok(#[trigger] book@[i])
                && book@[i].index == i + 1 by {
                assert(book@[i] == entries@[i]@);
            }
            assert forall|b: Seq<EntryV>|
                valid_book(b) && text@ == #[trigger] encode_file_spec(b) implies book@ == b by {
                assert(b.len() == ls.len() - 2);
                assert(b.take(k - 1) =~= book@);
                assert(b.take(b.len() as int) =~= b);
            }
        }
        Ok(book)
    }
}

} // verus!
