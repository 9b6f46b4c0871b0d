//! Zones from files that ask for other files: what has been read, and which
//! file is needed next.

use vstd::prelude::*;
use crate::dns::problem;
use crate::dns::problem::{GateError, Problem};
use crate::dns::table::RecordTable;
use crate::dns::token;
use crate::dns::token::{tokenize, LogicalRecord, Row};
use crate::dns::zone;
use crate::dns::zone::{
    parse_record, Ask, Counted, Defaults, Effect, Limits, Request, Setting, Tally,
};
use crate::text;
use crate::text::{push_decimal, same_text};

verus! {

/// A file that is being read.
#[verifier::ext_equal]
pub struct Reading {
    pub path: Seq<char>,
    pub rows: Seq<Row>,
    pub next: int,
    pub setting: Setting,
}

/// Everything that is being read, the innermost file last.
#[verifier::ext_equal]
pub struct Machine {
    pub readings: Seq<Reading>,
    pub tally: Tally,
}

/// How much is left to do.
pub open spec fn work(readings: Seq<Reading>) -> nat
    decreases readings.len(),
{
    if readings.len() == 0 {
        0
    } else {
        work(readings.drop_last()) + 1 + if readings.last().next < readings.last().rows.len() {
            (readings.last().rows.len() - readings.last().next) as nat
        } else {
            0
        }
    }
}

/// The innermost file with one record read.
pub open spec fn stepped(machine: Machine, setting: Setting, tally: Tally) -> Machine {
    let top = machine.readings.last();
    Machine {
        readings: machine.readings.drop_last().push(
            Reading { next: top.next + 1, setting, ..top },
        ),
        tally,
    }
}

/// Reading on up to the next file that is needed, or to the end.
pub open spec fn advanced(limits: Limits, machine: Machine) -> Result<
    (Machine, Option<Ask>),
    Problem,
>
    decreases work(machine.readings),
{
    if machine.readings.len() == 0 {
        Ok((machine, None))
    } else {
        let top = machine.readings.last();
        if top.next < 0 || top.next >= top.rows.len() {
            advanced(limits, Machine { readings: machine.readings.drop_last(), ..machine })
        } else {
            match zone::effect(limits, top.path, top.rows[top.next], top.setting, machine.tally) {
                Err(error) => Err(error),
                Ok(Effect::Included(ask)) => Ok(
                    (stepped(machine, top.setting, machine.tally), Some(ask)),
                ),
                Ok(Effect::Kept(setting, tally)) => {
                    proof {
                        let after = stepped(machine, setting, tally);
                        assert(after.readings.drop_last() =~= machine.readings.drop_last());
                    }
                    advanced(limits, stepped(machine, setting, tally))
                },
            }
        }
    }
}

/// A file that is being read.
#[derive(Debug, Clone)]
pub struct Frame {
    pub path: String,
    pub rows: Vec<LogicalRecord>,
    pub next: usize,
    pub defaults: Defaults,
}

impl View for Frame {
    type V = Reading;

    open spec fn view(&self) -> Reading {
        Reading {
            path: self.path@,
            rows: token::rows(self.rows@),
            next: self.next as int,
            setting: self.defaults@,
        }
    }
}

pub open spec fn frame_views(frames: Seq<Frame>) -> Seq<Reading> {
    frames.map_values(|frame: Frame| frame@)
}

pub open spec fn path_views(paths: Seq<String>) -> Seq<Seq<char>> {
    paths.map_values(|path: String| path@)
}

/// The reader of one zone of one snapshot.
#[derive(Debug, Clone)]
pub struct ZoneParser {
    pub limits: Limits,
    pub frames: Vec<Frame>,
    pub counted: Counted,
    pub input_paths: Vec<String>,
}

impl View for ZoneParser {
    type V = Machine;

    open spec fn view(&self) -> Machine {
        Machine { readings: frame_views(self.frames@), tally: self.counted@ }
    }
}

/// The files that are being read do not allow another level.
pub open spec fn depth_problem(limits: Limits, requested: Seq<char>) -> Problem {
    problem::problem(
        "E_INCLUDE_DEPTH"@,
        requested,
        0,
        "include depth exceeds "@ + text::decimal(limits.max_include_depth as nat),
    )
}

pub open spec fn is_open(readings: Seq<Reading>, path: Seq<char>) -> bool {
    exists|i: int| 0 <= i < readings.len() && (#[trigger] readings[i]).path == path
}

/// The paths with one more, unless it is there.
pub open spec fn noted(paths: Seq<Seq<char>>, path: Seq<char>) -> Seq<Seq<char>> {
    if paths.contains(path) {
        paths
    } else {
        paths.push(path)
    }
}

impl ZoneParser {
    pub open spec fn sound(&self) -> bool {
        self.counted.records.sound()
    }

    /// Nothing read yet, after `total_records` records of other zones.
    pub fn new(limits: Limits, total_records: usize) -> (parser: Self)
        ensures
            parser.sound(),
            parser.limits == limits,
            parser@ == (Machine {
                readings: Seq::empty(),
                tally: Tally { zone: 0, total: total_records, records: Map::empty() },
            }),
            path_views(parser.input_paths@) == Seq::<Seq<char>>::empty(),
    {
        let parser = ZoneParser {
            limits,
            frames: Vec::new(),
            counted: Counted { zone: 0, total: total_records, records: RecordTable::new() },
            input_paths: Vec::new(),
        };
        proof {
            assert(frame_views(parser.frames@) =~= Seq::empty());
            assert(path_views(parser.input_paths@) =~= Seq::empty());
        }
        parser
    }

    /// Whether another level of files may be opened.
    pub fn check_depth(&self, requested: &str) -> (result: Result<(), GateError>)
        ensures
            match result {
                Ok(()) => self@.readings.len() <= self.limits.max_include_depth,
                Err(error) => self@.readings.len() > self.limits.max_include_depth && error@
                    == depth_problem(self.limits, requested@),
            },
    {
        if self.frames.len() > self.limits.max_include_depth {
            let mut detail = "include depth exceeds ".to_owned();
            push_decimal(&mut detail, self.limits.max_include_depth as u64);
            return Err(GateError::new("E_INCLUDE_DEPTH", requested, 0, detail.as_str()));
        }
        Ok(())
    }

    /// Notes a file, and refuses one that is being read already.
    pub fn note_file(&mut self, path: &str) -> (result: Result<(), GateError>)
        ensures
            final(self)@ == old(self)@,
            final(self).limits == old(self).limits,
            final(self).counted == old(self).counted,
            path_views(final(self).input_paths@) == noted(
                path_views(old(self).input_paths@),
                path@,
            ),
            match result {
                Ok(()) => !is_open(old(self)@.readings, path@),
                Err(error) => is_open(old(self)@.readings, path@) && error@ == problem::problem(
                    "E_INCLUDE_CYCLE"@,
                    path@,
                    0,
                    "include cycle detected"@,
                ),
            },
    {
        let ghost paths = path_views(self.input_paths@);
        let mut known: bool = false;
        let mut i: usize = 0;
        while i < self.input_paths.len()
            invariant
                i <= self.input_paths@.len(),
                *self == *old(self),
                paths == path_views(self.input_paths@),
                known == exists|k: int| 0 <= k < i && #[trigger] paths[k] == path@,
            decreases self.input_paths@.len() - i,
        {
            assert(paths[i as int] == self.input_paths@[i as int]@);
            if same_text(self.input_paths[i].as_str(), path) {
                known = true;
            }
            i = i + 1;
        }
        assert(known == paths.contains(path@));
        if !known {
            let ghost before = self.input_paths@;
            let noted_path = path.to_owned();
            self.input_paths.push(noted_path);
            assert(path_views(self.input_paths@) =~= paths.push(path@));
        }
        let ghost readings = frame_views(self.frames@);
        let mut k: usize = 0;
        while k < self.frames.len()
            invariant
                k <= self.frames@.len(),
                self.frames == old(self).frames,
                self.limits == old(self).limits,
                self.counted == old(self).counted,
                readings == frame_views(self.frames@),
                readings == old(self)@.readings,
                path_views(self.input_paths@) == noted(paths, path@),
                paths == path_views(old(self).input_paths@),
                forall|m: int| 0 <= m < k ==> (#[trigger] readings[m]).path != path@,
            decreases self.frames@.len() - k,
        {
            assert(readings[k as int] == self.frames@[k as int]@);
            if same_text(self.frames[k].path.as_str(), path) {
                return Err(
                    GateError::new("E_INCLUDE_CYCLE", path, 0, "include cycle detected"),
                );
            }
            k = k + 1;
        }
        Ok(())
    }

    /// Begins to read a file.
    pub fn open(&mut self, path: &str, bytes: &[u8], defaults: Defaults) -> (result: Result<
        (),
        GateError,
    >)
        requires
            old(self).sound(),
        ensures
            final(self).sound(),
            final(self).limits == old(self).limits,
            final(self).input_paths == old(self).input_paths,
            match result {
                Ok(()) => token::tokens_of(path@, bytes@) is Ok && final(self)@ == (Machine {
                    readings: old(self)@.readings.push(
                        Reading {
                            path: path@,
                            rows: token::tokens_of(path@, bytes@)->Ok_0,
                            next: 0,
                            setting: defaults@,
                        },
                    ),
                    ..old(self)@
                }),
                Err(error) => token::tokens_of(path@, bytes@) == Err::<Seq<Row>, Problem>(error@)
                    && final(self)@ == old(self)@,
            },
    {
        match tokenize(path, bytes) {
            Ok(rows) => {
                let ghost before = self.frames@;
                let frame = Frame { path: path.to_owned(), rows, next: 0, defaults };
                self.frames.push(frame);
                assert(frame_views(self.frames@) =~= frame_views(before).push(frame@));
                Ok(())
            },
            Err(error) => Err(error),
        }
    }

    /// Reads on up to the next file that is needed, or to the end.
    pub fn advance(&mut self) -> (result: Result<Option<Request>, GateError>)
        requires
            old(self).sound(),
        ensures
            final(self).limits == old(self).limits,
            final(self).input_paths == old(self).input_paths,
            match result {
                Ok(asked) => final(self).sound() && advanced(old(self).limits, old(self)@) == Ok::<
                    (Machine, Option<Ask>),
                    Problem,
                >(
                    (
                        final(self)@,
                        match asked {
                            Some(request) => Some(request@),
                            None => None,
                        },
                    ),
                ),
                Err(error) => advanced(old(self).limits, old(self)@) == Err::<
                    (Machine, Option<Ask>),
                    Problem,
                >(error@),
            },
    {
        loop
            invariant
                self.sound(),
                self.limits == old(self).limits,
                self.input_paths == old(self).input_paths,
                advanced(old(self).limits, old(self)@) == advanced(self.limits, self@),
            decreases work(self@.readings),
        {
            let ghost machine = self@;
            let ghost frames = self.frames@;
            if self.frames.len() == 0 {
                return Ok(None);
            }
            let mut frame = self.frames.pop().unwrap();
            proof {
                assert(frame == frames.last());
                assert(machine.readings.last() == frame@);
                assert(frame_views(self.frames@) =~= machine.readings.drop_last());
            }
            if frame.next < frame.rows.len() {
                let ghost top = frame@;
                assert(top.rows[top.next] == frame.rows@[frame.next as int]@);
                match parse_record(
                    &self.limits,
                    frame.path.as_str(),
                    &frame.rows[frame.next],
                    &mut frame.defaults,
                    &mut self.counted,
                ) {
                    Ok(asked) => {
                        let count: usize = frame.rows.len();
                        assert(frame.next < count);
                        frame.next = frame.next + 1;
                        let ghost moved = frame@;
                        self.frames.push(frame);
                        proof {
                            assert(moved =~= Reading {
                                next: top.next + 1,
                                setting: frame.defaults@,
                                ..top
                            });
                            assert(frame_views(self.frames@) =~= machine.readings.drop_last().push(
                                moved,
                            ));
                            assert(self@ =~= stepped(machine, frame.defaults@, self.counted@));
                            assert(self@.readings.drop_last() =~= machine.readings.drop_last());
                        }
                        if asked.is_some() {
                            return Ok(asked);
                        }
                    },
                    Err(error) => {
                        return Err(error);
                    },
                }
            } else {
                assert(self@ =~= Machine { readings: machine.readings.drop_last(), ..machine });
            }
        }
    }
}

} // verus!
