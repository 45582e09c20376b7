//! Publication of staged work to the firmware.
use crate::bytes;
use crate::flights::{Publication, Session, CHANNELS};
use crate::fw;
use crate::fw::{Channel, MainConfig, BUNDLE_ADDRESS};
use crate::plan;
use crate::plan::{push_word, push_write, Write};
use crate::queue;
use vstd::prelude::*;

verus! {

/// What publishing the staged work takes: writes first, then the ends of the channels, then messages.
pub struct FlushPlan {
    pub writes: Vec<Write>,
    /// Registers and their values.
    pub tails: Vec<(u64, u32)>,
    pub messages: Vec<u64>,
}

/// The order in which stages are published: fragments come before tiling.
pub open spec fn stage_order(k: int) -> int {
    if k == 0 {
        1
    } else if k == 1 {
        0
    } else {
        2
    }
}

/// The writes of one publication: the head of its queue, and the message of its channel.
pub open spec fn publication_writes(p: Publication) -> Seq<plan::Stored> {
    seq![
        ((p.lane.pointers + 0x40) as u64, plan::word(p.lane.head), true),
        (
            (fw::bootstrap_channel(BUNDLE_ADDRESS, p.channel as int).1 + p.epoch * 0x18) as u64,
            bytes::image(
                0x18,
                queue::channel_fields(
                    p.lane.queue,
                    p.lane.head as u16,
                    (p.event % 0x100) as u8,
                    (p.channel % 3) as u32,
                    p.lane.new,
                    p.sequence,
                ),
            ),
            true,
        ),
    ]
}

/// The writes of the publications of a stage among the first `n`.
pub open spec fn stage_writes(publications: Seq<Publication>, stage: int, n: int) -> Seq<plan::Stored>
    decreases n,
{
    if n <= 0 {
        seq![]
    } else if publications[n - 1].channel as int % 3 == stage {
        stage_writes(publications, stage, n - 1) + publication_writes(publications[n - 1])
    } else {
        stage_writes(publications, stage, n - 1)
    }
}

/// The writes of all publications.
pub open spec fn flush_writes(publications: Seq<Publication>) -> Seq<plan::Stored> {
    let n = publications.len() as int;
    stage_writes(publications, 1, n) + stage_writes(publications, 0, n) + stage_writes(
        publications,
        2,
        n,
    )
}

/// The end of a channel after the first `n` publications: behind the last message on it.
pub open spec fn tail_of(publications: Seq<Publication>, channel: int, n: int) -> Option<u32>
    decreases n,
{
    if n <= 0 {
        None
    } else if publications[n - 1].channel == channel {
        Some(((publications[n - 1].epoch + 1) % 256) as u32)
    } else {
        tail_of(publications, channel, n - 1)
    }
}

/// The register that holds the end of a channel.
pub open spec fn tail_register(channel: int) -> u64 {
    (0xd6_0000 + fw::state_offsets()[channel].1) as u64
}

/// The channels in the order in which their ends are published.
pub open spec fn channel_order(k: int) -> int {
    stage_order(k / 4) + (k % 4) * 3
}

/// The first ends of channels that are published.
pub open spec fn tails_upto(publications: Seq<Publication>, k: int) -> Seq<(u64, u32)>
    decreases k,
{
    if k <= 0 {
        seq![]
    } else {
        let channel = channel_order(k - 1);
        match tail_of(publications, channel, publications.len() as int) {
            None => tails_upto(publications, k - 1),
            Some(tail) => tails_upto(publications, k - 1).push((tail_register(channel), tail)),
        }
    }
}

/// The engine that a channel belongs to: two for each priority.
pub open spec fn engine_of(channel: int) -> int {
    channel / 3 * 2 + if channel % 3 == 2 {
        1int
    } else {
        0
    }
}

/// Whether an engine has work among the first `n` publications.
pub open spec fn is_used(publications: Seq<Publication>, engine: int, n: int) -> bool {
    exists|i: int|
        0 <= i < n && engine_of((#[trigger] publications[i]).channel as int) == engine
}

/// The messages to the first engines.
pub open spec fn messages_upto(publications: Seq<Publication>, engine: int) -> Seq<u64>
    decreases engine,
{
    if engine <= 0 {
        seq![]
    } else if is_used(publications, engine - 1, publications.len() as int) {
        messages_upto(publications, engine - 1).push(
            (0x83_0000_0000_0000 + 2 * (engine - 1)) as u64,
        )
    } else {
        messages_upto(publications, engine - 1)
    }
}

/// The ring of a submission channel and the register that holds its end.
fn route(config: &MainConfig, channel: usize) -> (out: (u64, u64))
    requires
        config.is_bootstrap(BUNDLE_ADDRESS),
        channel < CHANNELS,
    ensures
        out.0 == fw::bootstrap_channel(BUNDLE_ADDRESS, channel as int).1,
        out.0 <= BUNDLE_ADDRESS + 0x1c240,
        out.1 == tail_register(channel as int),
{
    let entry: Channel = config.channels[channel];
    proof {
        assert(config.channels@[channel as int].state@ == fw::bootstrap_channel(
            BUNDLE_ADDRESS,
            channel as int,
        ).0);
        assert(fw::state_offsets()[channel as int].1 <= 0x58);
        assert(fw::ring_offsets()[channel as int] <= 0x1c240);
    }
    (entry.ring, 0xd6_0000 + (entry.state[2] - 0xffff_fc20_0002_0000))
}

impl Session {
    /// Adds the writes of the publications of a stage.
    fn push_stage(&self, config: &MainConfig, writes: &mut Vec<Write>, stage: usize)
        requires
            self.staged_wf(),
            config.is_bootstrap(BUNDLE_ADDRESS),
            stage < 3,
        ensures
            plan::stored(final(writes)@) == plan::stored(old(writes)@) + stage_writes(
                self.publications@,
                stage as int,
                self.publications@.len() as int,
            ),
    {
        let ghost before = plan::stored(writes@);
        let mut i: usize = 0;
        assert(before + Seq::<plan::Stored>::empty() =~= before);
        while i < self.publications.len()
            invariant
                self.staged_wf(),
                config.is_bootstrap(BUNDLE_ADDRESS),
                i <= self.publications@.len(),
                plan::stored(writes@) == before + stage_writes(
                    self.publications@,
                    stage as int,
                    i as int,
                ),
            decreases self.publications@.len() - i,
        {
            let p: Publication = self.publications[i];
            assert(self.publications@[i as int].wf());
            if p.channel % 3 == stage {
                let ghost done = plan::stored(writes@);
                let (ring, _): (u64, u64) = route(config, p.channel);
                push_word(writes, p.lane.pointers + 0x40, p.lane.head);
                push_write(
                    writes,
                    ring + p.epoch as u64 * 0x18,
                    &queue::channel(
                        p.lane.queue,
                        p.lane.head as u16,
                        (p.event % 0x100) as u8,
                        (p.channel % 3) as u32,
                        p.lane.new,
                        p.sequence,
                    ),
                    true,
                );
                assert(plan::stored(writes@) =~= done + publication_writes(p));
                assert(plan::stored(writes@) =~= before + stage_writes(
                    self.publications@,
                    stage as int,
                    i + 1,
                ));
            }
            i += 1;
        }
    }

    /// The end of a channel.
    fn tail(&self, channel: usize) -> (out: Option<u32>)
        requires
            self.staged_wf(),
        ensures
            out == tail_of(self.publications@, channel as int, self.publications@.len() as int),
    {
        let mut out: Option<u32> = None;
        let mut i: usize = 0;
        while i < self.publications.len()
            invariant
                self.staged_wf(),
                i <= self.publications@.len(),
                out == tail_of(self.publications@, channel as int, i as int),
            decreases self.publications@.len() - i,
        {
            assert(self.publications@[i as int].wf());
            if self.publications[i].channel == channel {
                out = Some((self.publications[i].epoch + 1) % 256);
            }
            i += 1;
        }
        out
    }

    /// Whether an engine has work.
    fn used(&self, engine: usize) -> (out: bool)
        requires
            self.staged_wf(),
        ensures
            out == is_used(self.publications@, engine as int, self.publications@.len() as int),
    {
        let mut i: usize = 0;
        while i < self.publications.len()
            invariant
                self.staged_wf(),
                i <= self.publications@.len(),
                forall|j: int|
                    0 <= j < i ==> engine_of((#[trigger] self.publications@[j]).channel as int) != engine,
            decreases self.publications@.len() - i,
        {
            assert(self.publications@[i as int].wf());
            let channel: usize = self.publications[i].channel;
            let extra: usize = if channel % 3 == 2 {
                1
            } else {
                0
            };
            if channel / 3 * 2 + extra == engine {
                assert(engine_of(self.publications@[i as int].channel as int) == engine);
                return true;
            }
            i += 1;
        }
        false
    }

    /// What publishes all staged work at once and starts every engine that has work. Until this is done,
    /// the device counts as failed. Without staged work there is nothing to do.
    pub fn flush(&mut self) -> (out: Option<FlushPlan>)
        requires
            old(self).staged_wf(),
        ensures
            *final(self) == (Session { render_failed: final(self).render_failed, ..*old(self) }),
            match out {
                None => old(self).publications@.len() == 0 && *final(self) == *old(self),
                Some(plan) => {
                    &&& old(self).publications@.len() > 0
                    &&& final(self).render_failed
                    &&& plan::stored(plan.writes@) == flush_writes(old(self).publications@)
                    &&& plan.tails@ == tails_upto(old(self).publications@, 12)
                    &&& plan.messages@ == messages_upto(old(self).publications@, 8)
                },
            },
    {
        if self.publications.len() == 0 {
            return None;
        }
        self.render_failed = true;
        let config: MainConfig = MainConfig::bootstrap(BUNDLE_ADDRESS);
        let mut writes: Vec<Write> = Vec::new();
        assert(plan::stored(writes@) =~= Seq::<plan::Stored>::empty());
        self.push_stage(&config, &mut writes, 1);
        self.push_stage(&config, &mut writes, 0);
        self.push_stage(&config, &mut writes, 2);
        assert(plan::stored(writes@) =~= flush_writes(self.publications@));
        let mut tails: Vec<(u64, u32)> = Vec::new();
        let mut k: usize = 0;
        while k < 12
            invariant
                k <= 12,
                self.staged_wf(),
                config.is_bootstrap(BUNDLE_ADDRESS),
                tails@ == tails_upto(self.publications@, k as int),
            decreases 12 - k,
        {
            let first: usize = if k < 4 {
                1
            } else if k < 8 {
                0
            } else {
                2
            };
            let channel: usize = first + (k % 4) * 3;
            assert(channel == channel_order(k as int));
            if let Some(tail) = self.tail(channel) {
                let (_, register): (u64, u64) = route(&config, channel);
                tails.push((register, tail));
            }
            k += 1;
        }
        let mut messages: Vec<u64> = Vec::new();
        let mut engine: usize = 0;
        while engine < 8
            invariant
                engine <= 8,
                self.staged_wf(),
                messages@ == messages_upto(self.publications@, engine as int),
            decreases 8 - engine,
        {
            if self.used(engine) {
                messages.push(0x83_0000_0000_0000 + 2 * engine as u64);
            }
            engine += 1;
        }
        Some(FlushPlan { writes, tails, messages })
    }

    /// Ends a publication that was carried out.
    pub fn flushed(&mut self)
        ensures
            final(self).publications@.len() == 0,
            final(self).batch_works == 0,
            !final(self).render_failed,
            *final(self) == (Session {
                publications: final(self).publications,
                batch_works: 0,
                render_failed: false,
                ..*old(self)
            }),
    {
        self.publications.clear();
        self.batch_works = 0;
        self.render_failed = false;
    }

    /// Fails the device.
    pub fn poison(&mut self)
        ensures
            *final(self) == (Session { render_failed: true, ..*old(self) }),
    {
        self.render_failed = true;
    }
}

/// Every publication is written, and its channel's end and its engine's message are published.
pub proof fn lemma_all_published(publications: Seq<Publication>, i: int)
    requires
        0 <= i < publications.len(),
        publications[i].wf(),
    ensures
        flush_writes(publications).contains(publication_writes(publications[i])[0]),
        flush_writes(publications).contains(publication_writes(publications[i])[1]),
        tail_of(publications, publications[i].channel as int, publications.len() as int) is Some,
        is_used(
            publications,
            engine_of(publications[i].channel as int),
            publications.len() as int,
        ),
{
    let n = publications.len() as int;
    let p = publications[i];
    let stage = p.channel as int % 3;
    lemma_stage_has(publications, i, n);
    lemma_tail_some(publications, i, n);
    let one = stage_writes(publications, 1, n);
    let zero = stage_writes(publications, 0, n);
    let two = stage_writes(publications, 2, n);
    let all = flush_writes(publications);
    assert forall|w: plan::Stored| stage_writes(publications, stage, n).contains(w) implies #[trigger] all.contains(
        w,
    ) by {
        let k = choose|k: int|
            0 <= k < stage_writes(publications, stage, n).len() && stage_writes(
                publications,
                stage,
                n,
            )[k] == w;
        if stage == 1 {
            assert(all[k] == w);
        } else if stage == 0 {
            assert(all[one.len() + k] == w);
        } else {
            assert(all[one.len() + zero.len() + k] == w);
        }
    }
}

/// The writes of a publication are among those of its stage.
proof fn lemma_stage_has(publications: Seq<Publication>, i: int, n: int)
    requires
        0 <= i < n <= publications.len(),
    ensures
        stage_writes(publications, publications[i].channel as int % 3, n).contains(
            publication_writes(publications[i])[0],
        ),
        stage_writes(publications, publications[i].channel as int % 3, n).contains(
            publication_writes(publications[i])[1],
        ),
    decreases n,
{
    let stage = publications[i].channel as int % 3;
    let all = stage_writes(publications, stage, n);
    let before = stage_writes(publications, stage, n - 1);
    if i == n - 1 {
        assert(all[before.len() as int] == publication_writes(publications[i])[0]);
        assert(all[before.len() as int + 1] == publication_writes(publications[i])[1]);
    } else {
        lemma_stage_has(publications, i, n - 1);
        let a = choose|a: int|
            0 <= a < before.len() && before[a] == publication_writes(publications[i])[0];
        let b = choose|b: int|
            0 <= b < before.len() && before[b] == publication_writes(publications[i])[1];
        assert(all[a] == before[a]);
        assert(all[b] == before[b]);
    }
}

/// A channel with a publication has an end.
proof fn lemma_tail_some(publications: Seq<Publication>, i: int, n: int)
    requires
        0 <= i < n <= publications.len(),
    ensures
        tail_of(publications, publications[i].channel as int, n) is Some,
    decreases n,
{
    if i < n - 1 {
        lemma_tail_some(publications, i, n - 1);
    }
}

} // verus!
