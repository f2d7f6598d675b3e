//! The recursive file loader, as an explicit state machine.
//!
//! Reading files is the caller's business; the parsing itself is verified
//! here. A [`ConfigParser`] holds the accumulating record and a stack of
//! partially processed files. The caller pushes a file's text with
//! [`ConfigParser::push_file`] and then calls [`ConfigParser::step`] until it
//! reports that the parse is finished, failed, or needs the text of an
//! included file. Lines are consumed strictly in file-then-line order:
//! a pushed file is processed completely before the lines below its `exec`
//! directive, exactly as a depth-first recursive loader would.

use vstd::prelude::*;
use crate::config::{
    apply_tokens, empty_config, line_effect, ConfigView, DispatchOutcome, FivemConfig, LineEffect,
};
use crate::strings::push_char;
use crate::tokenize::config_line_split;

verus! {

/// Why a parse stopped early.
#[derive(Clone, Copy, Debug, PartialEq, Eq, Structural)]
pub enum ConfigError {
    /// The argument of `sv_maxclients` is not a number.
    BadMaxClients,
    /// A configuration file could not be opened or read.
    Io,
}

impl ConfigError {
    /// A human-readable description of the error.
    pub fn message(&self) -> (r: &'static str)
        ensures
            *self == ConfigError::BadMaxClients ==> r@ == "Max clients is not a number!"@,
            *self == ConfigError::Io ==> r@ == "Failed to read config file."@,
    {
        match self {
            ConfigError::BadMaxClients => "Max clients is not a number!",
            ConfigError::Io => "Failed to read config file.",
        }
    }
}

/// Line splitting, one character at a time: the finished lines so far and
/// the pending line. A CR is treated exactly like an LF, so CRLF and CR-only
/// endings behave as LF does (the CRLF pair yields an extra empty line,
/// which dispatching ignores).
pub open spec fn lines_run(s: Seq<char>) -> (Seq<Seq<char>>, Seq<char>)
    decreases s.len(),
{
    if s.len() == 0 {
        (Seq::empty(), Seq::empty())
    } else {
        let r = lines_run(s.drop_last());
        let c = s.last();
        if c == '\n' || c == '\r' {
            (r.0.push(r.1), Seq::empty())
        } else {
            (r.0, r.1.push(c))
        }
    }
}

/// A file's text split into lines: every LF or CR ends a line, and the final
/// (possibly empty) piece is always a line of its own.
pub open spec fn split_lines(s: Seq<char>) -> Seq<Seq<char>> {
    lines_run(s).0.push(lines_run(s).1)
}

/// Split a file's text into lines, following [`split_lines`].
pub fn split_file_lines(text: &str) -> (lines: Vec<String>)
    ensures
        lines.deep_view() == split_lines(text@),
{
    let n = text.unicode_len();
    let mut lines: Vec<String> = Vec::new();
    let mut cur = String::new();
    let mut i: usize = 0;
    while i < n
        invariant
            i <= n,
            n == text@.len(),
            lines.deep_view() == lines_run(text@.subrange(0, i as int)).0,
            cur@ == lines_run(text@.subrange(0, i as int)).1,
        decreases n - i,
    {
        let ghost st = lines_run(text@.subrange(0, i as int));
        let c = text.get_char(i);
        proof {
            let p = text@.subrange(0, i as int);
            let q = text@.subrange(0, i + 1);
            assert(q.drop_last() =~= p);
            assert(q.last() == text@[i as int]);
        }
        if c == '\n' || c == '\r' {
            lines.push(cur);
            cur = String::new();
            proof {
                assert(lines.deep_view() =~~= st.0.push(st.1));
            }
        } else {
            push_char(&mut cur, c);
        }
        i = i + 1;
    }
    proof {
        assert(text@.subrange(0, n as int) =~= text@);
    }
    let ghost st = lines_run(text@);
    lines.push(cur);
    proof {
        assert(lines.deep_view() =~~= st.0.push(st.1));
    }
    lines
}

/// One partially processed file: its lines, and how many are already consumed.
struct Frame {
    lines: Vec<String>,
    next: usize,
}

/// The lines of a frame that are still to be processed, in order.
spec fn frame_view(f: Frame) -> Seq<Seq<char>> {
    f.lines.deep_view().skip(f.next as int)
}

spec fn frame_wf(f: Frame) -> bool {
    f.next <= f.lines.len()
}

/// The mathematical state of a parse: the record built so far, the stack of
/// files still being processed (each as its remaining lines, the innermost
/// inclusion last), and whether the parse has failed.
#[verifier::ext_equal]
pub ghost struct ParserView {
    pub config: ConfigView,
    pub frames: Seq<Seq<Seq<char>>>,
    pub failed: bool,
}

/// Drop exhausted files from the top of the stack.
pub open spec fn trimmed(frames: Seq<Seq<Seq<char>>>) -> Seq<Seq<Seq<char>>>
    decreases frames.len(),
{
    if frames.len() == 0 {
        frames
    } else if frames.last().len() > 0 {
        frames
    } else {
        trimmed(frames.drop_last())
    }
}

/// The state machine that parses configuration files.
pub struct ConfigParser {
    config: FivemConfig,
    frames: Vec<Frame>,
    failed: bool,
}

impl View for ConfigParser {
    type V = ParserView;

    closed spec fn view(&self) -> ParserView {
        ParserView {
            config: self.config@,
            frames: self.frames@.map_values(|f: Frame| frame_view(f)),
            failed: self.failed,
        }
    }
}

/// The parser's report after processing one line.
#[derive(Debug)]
pub enum StepResult {
    /// One line was consumed (possibly as a no-op).
    Progress,
    /// An `exec` directive asks for the text of this file; push it with
    /// [`ConfigParser::push_file`] before stepping on, or treat the parse as
    /// failed if it cannot be read.
    NeedFile(String),
    /// Every line of every pushed file has been consumed.
    Finished,
    /// The parse has failed; no further line will be consumed.
    Failed(ConfigError),
}

impl ConfigParser {
    /// The parser's internal invariant.
    pub closed spec fn wf(&self) -> bool {
        &&& self.config.wf()
        &&& forall|i: int| 0 <= i < self.frames@.len() ==> frame_wf(#[trigger] self.frames@[i])
    }

    /// A parser over the empty record, with no file pushed yet.
    pub fn new() -> (p: ConfigParser)
        ensures
            p.wf(),
            p@ == (ParserView { config: empty_config(), frames: Seq::empty(), failed: false }),
    {
        let p = ConfigParser { config: FivemConfig::new(), frames: Vec::new(), failed: false };
        proof {
            assert(p.frames@.map_values(|f: Frame| frame_view(f)) =~= Seq::<
                Seq<Seq<char>>,
            >::empty());
            assert(p@ =~~= (ParserView {
                config: empty_config(),
                frames: Seq::empty(),
                failed: false,
            }));
        }
        p
    }

    /// Queue the text of a file. Its lines are processed before every line
    /// already pending, which is exactly the depth-first order of `exec`.
    pub fn push_file(&mut self, text: &str)
        requires
            old(self).wf(),
        ensures
            final(self).wf(),
            final(self)@ == (ParserView {
                frames: old(self)@.frames.push(split_lines(text@)),
                ..old(self)@
            }),
    {
        let lines = split_file_lines(text);
        let f = Frame { lines, next: 0 };
        proof {
            assert(frame_view(f) =~= split_lines(text@));
        }
        self.frames.push(f);
        proof {
            assert(self.frames@.map_values(|fr: Frame| frame_view(fr))
                =~~= old(self)@.frames.push(split_lines(text@)));
            assert(self@ =~~= (ParserView {
                frames: old(self)@.frames.push(split_lines(text@)),
                ..old(self)@
            }));
        }
    }

    /// Process the next pending line, in file-then-line order.
    ///
    /// The next line is the first remaining line of the topmost unexhausted
    /// file; exhausted files are discarded first. Its effect on the record is
    /// exactly [`line_effect`].
    pub fn step(&mut self) -> (r: StepResult)
        requires
            old(self).wf(),
        ensures
            final(self).wf(),
            old(self)@.failed ==> r == StepResult::Failed(ConfigError::BadMaxClients)
                && final(self)@ == old(self)@,
            !old(self)@.failed ==> ({
                let tf = trimmed(old(self)@.frames);
                if tf.len() == 0 {
                    &&& r == StepResult::Finished
                    &&& final(self)@ == (ParserView { frames: tf, ..old(self)@ })
                } else {
                    let line = tf.last()[0];
                    let rest = tf.update(tf.len() - 1, tf.last().drop_first());
                    match line_effect(old(self)@.config, line) {
                        LineEffect::Keep => r == StepResult::Progress && final(self)@
                            == (ParserView { frames: rest, ..old(self)@ }),
                        LineEffect::Update(c2) => r == StepResult::Progress && final(self)@
                            == (ParserView { config: c2, frames: rest, ..old(self)@ }),
                        LineEffect::Include(p) => (r matches StepResult::NeedFile(f) && f@ == p)
                            && final(self)@ == (ParserView { frames: rest, ..old(self)@ }),
                        LineEffect::Fail => r == StepResult::Failed(ConfigError::BadMaxClients)
                            && final(self)@ == (ParserView {
                            frames: rest,
                            failed: true,
                            ..old(self)@
                        }),
                    }
                }
            }),
    {
        if self.failed {
            return StepResult::Failed(ConfigError::BadMaxClients);
        }
        loop
            invariant
                self.wf(),
                !self.failed,
                self.config@ == old(self)@.config,
                self.failed == old(self)@.failed,
                trimmed(self@.frames) == trimmed(old(self)@.frames),
            ensures
                self.wf(),
                !self.failed,
                self.config@ == old(self)@.config,
                trimmed(self@.frames) == trimmed(old(self)@.frames),
                self.frames@.len() > 0,
                self.frames@.last().next < self.frames@.last().lines@.len(),
                trimmed(self@.frames) == self@.frames,
            decreases self.frames@.len(),
        {
            let flen = self.frames.len();
            if flen == 0 {
                proof {
                    assert(trimmed(self@.frames) == self@.frames);
                    assert(self@.frames =~~= trimmed(old(self)@.frames));
                    assert(self@ =~~= (ParserView {
                        frames: trimmed(old(self)@.frames),
                        ..old(self)@
                    }));
                }
                return StepResult::Finished;
            }
            let next = self.frames[flen - 1].next;
            let llen = self.frames[flen - 1].lines.len();
            proof {
                assert(self@.frames[flen - 1] == frame_view(self.frames@[flen - 1]));
                assert(self@.frames.last() == frame_view(self.frames@[flen - 1]));
            }
            if next < llen {
                proof {
                    assert(frame_view(self.frames@[flen - 1]).len() > 0);
                    assert(trimmed(self@.frames) == self@.frames);
                }
                break;
            }
            proof {
                assert(frame_view(self.frames@[flen - 1]) =~= Seq::<Seq<char>>::empty());
                assert(self@.frames.last().len() == 0);
                assert(trimmed(self@.frames) == trimmed(self@.frames.drop_last()));
            }
            let ghost before = self@.frames;
            self.frames.pop();
            proof {
                assert(self@.frames =~~= before.drop_last());
            }
        }
        let ghost pre = self@;
        let ghost tf = trimmed(old(self)@.frames);
        proof {
            assert(tf == pre.frames);
            assert(tf.len() > 0);
        }
        let mut top = self.frames.pop().unwrap();
        let line = top.lines[top.next].clone();
        proof {
            assert(frame_view(top)[0] == top.lines.deep_view()[top.next as int]);
            assert(top.lines.deep_view()[top.next as int] == top.lines@[top.next as int]@);
            assert(line@ == tf.last()[0]);
        }
        let ghost oldtop = top;
        top.next = top.next + 1;
        self.frames.push(top);
        proof {
            assert(frame_view(top) =~= frame_view(oldtop).drop_first());
            assert(self@.frames =~~= tf.update(tf.len() - 1, tf.last().drop_first()));
        }
        let ghost rest = tf.update(tf.len() - 1, tf.last().drop_first());
        let n = line.as_str().unicode_len();
        if n > 0 && line.as_str().get_char(0) == '#' {
            proof {
                assert(line_effect(pre.config, line@) == LineEffect::Keep);
                assert(self@ =~~= (ParserView { frames: rest, ..old(self)@ }));
            }
            return StepResult::Progress;
        }
        let parts = config_line_split(line);
        let outcome = apply_tokens(&mut self.config, &parts);
        match outcome {
            DispatchOutcome::Applied => {
                proof {
                    match line_effect(pre.config, tf.last()[0]) {
                        LineEffect::Keep => {
                            assert(self@ =~~= (ParserView { frames: rest, ..old(self)@ }));
                        },
                        LineEffect::Update(c2) => {
                            assert(self@ =~~= (ParserView {
                                config: c2,
                                frames: rest,
                                ..old(self)@
                            }));
                        },
                        _ => {},
                    }
                }
                StepResult::Progress
            },
            DispatchOutcome::Include(f) => {
                proof {
                    assert(self@ =~~= (ParserView { frames: rest, ..old(self)@ }));
                }
                StepResult::NeedFile(f)
            },
            DispatchOutcome::BadMaxClients => {
                self.failed = true;
                proof {
                    assert(self@ =~~= (ParserView { frames: rest, failed: true, ..old(self)@ }));
                }
                StepResult::Failed(ConfigError::BadMaxClients)
            },
        }
    }

    /// The finished record. Meaningful once [`ConfigParser::step`] has
    /// reported `Finished`; a failed parse never hands a record out.
    pub fn into_config(self) -> (c: FivemConfig)
        requires
            self.wf(),
            self@.frames.len() == 0,
            !self@.failed,
        ensures
            c.wf(),
            c@ == self@.config,
    {
        self.config
    }
}

} // verus!
