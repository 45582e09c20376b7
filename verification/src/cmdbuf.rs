//! Reading of a command buffer: headers, barriers and attachments.
use crate::bytes;
use crate::bytes::{get16, get32, get64};
use crate::commands::{check_attachment, CommandKind, Header, Stream, ATTACHMENT_SIZE, HEADER_SIZE};
use crate::error::Error;
use vstd::prelude::*;

verus! {

/// The numbers by which clients name the kinds of commands.
#[derive(Clone, Copy, Debug, PartialEq, Eq, Structural)]
pub struct Codes {
    pub render: u16,
    pub compute: u16,
    /// The three kinds of attachments.
    pub vertex: u16,
    pub fragment: u16,
    pub kernel: u16,
}

/// A command of a buffer: where its payload lies, and what it waits for.
#[derive(Clone, Copy, Debug, PartialEq, Eq)]
pub struct Entry {
    pub compute: bool,
    pub start: usize,
    pub end: usize,
    /// What it waits for among the renders and among the computes.
    pub barriers: (u16, u16),
}

/// What a command buffer holds.
pub struct Batch {
    pub commands: Vec<Entry>,
    /// Address and size of each attachment.
    pub attachments: Vec<(u64, u64)>,
}

/// What a command buffer holds, as values.
pub ghost struct Contents {
    pub commands: Seq<Entry>,
    pub attachments: Seq<(u64, u64)>,
}

impl View for Batch {
    type V = Contents;

    open spec fn view(&self) -> Contents {
        Contents { commands: self.commands@, attachments: self.attachments@ }
    }
}

impl Codes {
    /// The kind that a number names.
    #[verifier::allow_in_spec]
    pub fn kind(self, code: u16) -> Option<CommandKind>
        returns
            (if code == self.render {
                Some(CommandKind::Render)
            } else if code == self.compute {
                Some(CommandKind::Compute)
            } else if code == self.vertex || code == self.fragment || code == self.kernel {
                Some(CommandKind::Attachments)
            } else {
                None
            }),
    {
        if code == self.render {
            Some(CommandKind::Render)
        } else if code == self.compute {
            Some(CommandKind::Compute)
        } else if code == self.vertex || code == self.fragment || code == self.kernel {
            Some(CommandKind::Attachments)
        } else {
            None
        }
    }
}

/// The header at a place of a buffer.
pub open spec fn header_at(buffer: Seq<u8>, codes: Codes, at: int) -> Header {
    Header {
        kind: codes.kind(bytes::u16_in(buffer, at) as u16),
        size: bytes::u16_in(buffer, at + 2) as u16,
        vdm_barrier: bytes::u16_in(buffer, at + 4) as u16,
        cdm_barrier: bytes::u16_in(buffer, at + 6) as u16,
    }
}

/// The number of renders, or of computes, among some commands.
pub open spec fn count(commands: Seq<Entry>, compute: bool) -> int
    decreases commands.len(),
{
    if commands.len() == 0 {
        0
    } else {
        count(commands.drop_last(), compute) + if commands.last().compute == compute {
            1int
        } else {
            0
        }
    }
}

/// The attachment at a place of a buffer; none where it is refused.
pub open spec fn attachment_at(buffer: Seq<u8>, at: int) -> Option<(u64, u64)> {
    let pointer = bytes::u64_in(buffer, at);
    let size = bytes::u64_in(buffer, at + 8);
    if bytes::u32_in(buffer, at + 16) == 0 && bytes::u32_in(buffer, at + 20) == 0 && pointer + size
        <= u64::MAX {
        Some((pointer as u64, size as u64))
    } else {
        None
    }
}

/// Some attachments behind each other; none where one is refused.
pub open spec fn attachments_in(buffer: Seq<u8>, at: int, n: nat) -> Option<Seq<(u64, u64)>>
    decreases n,
{
    if n == 0 {
        Some(seq![])
    } else {
        match (attachments_in(buffer, at, (n - 1) as nat), attachment_at(buffer, at + (n - 1) * 24)) {
            (Some(before), Some(last)) => Some(before.push(last)),
            _ => None,
        }
    }
}

/// Where the reading of a buffer stands at a place, behind some commands.
pub open spec fn stream_at(buffer: Seq<u8>, at: int, done: Contents) -> Stream {
    Stream {
        length: buffer.len() as usize,
        offset: at as usize,
        renders: count(done.commands, false) as u16,
        computes: count(done.commands, true) as u16,
    }
}

/// What a buffer holds from a place on, behind what was read before it; or why it is refused.
pub open spec fn contents(buffer: Seq<u8>, codes: Codes, at: int, done: Contents) -> Result<
    Contents,
    Error,
>
    decreases buffer.len() - at,
{
    let header = header_at(buffer, codes, at);
    let start = at + HEADER_SIZE;
    let end = start + header.size;
    if at >= buffer.len() {
        if done.commands.len() > 0 {
            Ok(done)
        } else {
            Err(Error::EINVAL)
        }
    } else if start > buffer.len() || end > buffer.len() {
        Err(Error::EINVAL)
    } else {
        match stream_at(buffer, at, done).refusal(header) {
            Some(e) => Err(e),
            None => if header.kind == Some(CommandKind::Attachments) {
                match attachments_in(buffer, start, (header.size as int / 24) as nat) {
                    None => Err(Error::EINVAL),
                    Some(more) => contents(
                        buffer,
                        codes,
                        end,
                        Contents { attachments: done.attachments + more, ..done },
                    ),
                }
            } else {
                contents(
                    buffer,
                    codes,
                    end,
                    Contents {
                        commands: done.commands.push(
                            Entry {
                                compute: header.kind == Some(CommandKind::Compute),
                                start: start as usize,
                                end: end as usize,
                                barriers: (header.vdm_barrier, header.cdm_barrier),
                            },
                        ),
                        ..done
                    },
                )
            },
        }
    }
}

/// Reads attachments that lie behind each other.
fn read_attachments(buffer: &[u8], at: usize, n: usize) -> (out: Result<Vec<(u64, u64)>, Error>)
    requires
        at + n * 24 <= buffer@.len() <= 0x10_0000,
    ensures
        match out {
            Ok(list) => attachments_in(buffer@, at as int, n as nat) == Some(list@),
            Err(e) => e == Error::EINVAL && attachments_in(buffer@, at as int, n as nat) is None,
        },
{
    let mut list: Vec<(u64, u64)> = Vec::new();
    let mut i: usize = 0;
    while i < n
        invariant
            i <= n,
            at + n * 24 <= buffer@.len() <= 0x10_0000,
            attachments_in(buffer@, at as int, i as nat) == Some(list@),
        decreases n - i,
    {
        let place: usize = at + i * ATTACHMENT_SIZE;
        let pointer: u64 = get64(buffer, place);
        let size: u64 = get64(buffer, place + 8);
        let flags: u32 = get32(buffer, place + 16);
        let pad: u32 = get32(buffer, place + 20);
        match check_attachment(flags, pad, pointer, size) {
            Err(e) => {
                proof {
                    lemma_refused(buffer@, at as int, (i + 1) as nat, n as nat);
                }
                return Err(e);
            },
            Ok(()) => {},
        }
        list.push((pointer, size));
        i += 1;
    }
    Ok(list)
}

/// Attachments are refused where some of them are.
proof fn lemma_refused(buffer: Seq<u8>, at: int, i: nat, n: nat)
    requires
        i <= n,
        attachments_in(buffer, at, i) is None,
    ensures
        attachments_in(buffer, at, n) is None,
    decreases n,
{
    if i < n {
        lemma_refused(buffer, at, i, (n - 1) as nat);
    }
}

/// Reads a command buffer. At least one command has to be in it.
pub fn read_commands(buffer: &[u8], codes: &Codes) -> (out: Result<Batch, Error>)
    requires
        buffer@.len() <= 0x10_0000,
    ensures
        contents(buffer@, *codes, 0, (Contents { commands: seq![], attachments: seq![] })) == match out {
            Ok(batch) => Ok::<Contents, Error>(batch@),
            Err(e) => Err(e),
        },
{
    let mut batch: Batch = Batch { commands: Vec::new(), attachments: Vec::new() };
    let mut stream: Stream = Stream::new(buffer.len());
    let ghost all = contents(
        buffer@,
        *codes,
        0,
        (Contents { commands: seq![], attachments: seq![] }),
    );
    assert(batch@ == (Contents { commands: seq![], attachments: seq![] }));
    loop
        invariant
            buffer@.len() <= 0x10_0000,
            stream.wf(),
            stream.length == buffer@.len(),
            stream.renders == count(batch.commands@, false),
            stream.computes == count(batch.commands@, true),
            stream.renders + stream.computes == batch.commands@.len(),
            all == contents(
                buffer@,
                *codes,
                0,
                (Contents { commands: seq![], attachments: seq![] }),
            ),
            contents(buffer@, *codes, stream.offset as int, batch@) == all,
        decreases buffer@.len() - stream.offset,
    {
        let at: usize = match stream.next_header() {
            Err(e) => {
                return Err(e);
            },
            Ok(None) => {
                match stream.finish() {
                    Err(e) => {
                        return Err(e);
                    },
                    Ok(()) => {
                        return Ok(batch);
                    },
                }
            },
            Ok(Some(at)) => at,
        };
        let header: Header = Header {
            kind: codes.kind(get16(buffer, at)),
            size: get16(buffer, at + 2),
            vdm_barrier: get16(buffer, at + 4),
            cdm_barrier: get16(buffer, at + 6),
        };
        assert(header == header_at(buffer@, *codes, at as int));
        let ghost before = batch@;
        assert(stream == stream_at(buffer@, at as int, before));
        let (start, end): (usize, usize) = match stream.accept(&header) {
            Err(e) => {
                return Err(e);
            },
            Ok(range) => range,
        };
        match header.kind {
            None => {
                return Err(Error::ENOTSUPP);
            },
            Some(CommandKind::Attachments) => {
                let mut more: Vec<(u64, u64)> = match read_attachments(
                    buffer,
                    start,
                    header.size as usize / 24,
                ) {
                    Err(e) => {
                        return Err(e);
                    },
                    Ok(more) => more,
                };
                let ghost joined = batch.attachments@ + more@;
                batch.attachments.append(&mut more);
                assert(batch.attachments@ =~= joined);
            },
            Some(kind) => {
                let compute: bool = match kind {
                    CommandKind::Compute => true,
                    _ => false,
                };
                batch.commands.push(
                    Entry { compute, start, end, barriers: (header.vdm_barrier, header.cdm_barrier) },
                );
                proof {
                    let new = batch.commands@;
                    assert(new.drop_last() =~= before.commands);
                    assert(count(new, true) == count(before.commands, true) + if compute {
                        1int
                    } else {
                        0
                    });
                    assert(count(new, false) == count(before.commands, false) + if compute {
                        0int
                    } else {
                        1
                    });
                }
            },
        }
    }
}

} // verus!
