//! Performance metrics and monitoring for KCP connections.
//!
//! Instants are milliseconds of a clock that never goes back.
use crate::protocol::KcpStats;
use crate::text;
use crate::text::decimal;
use vstd::prelude::*;
use vstd::string::StringExecFns;

verus! {

/// How many round-trip samples are kept.
pub const MAX_SAMPLES: usize = 1000;

/// Global performance metrics collector. Counters start again at zero after their largest
/// value.
#[derive(Debug, Clone, Copy, PartialEq, Eq, Structural)]
pub struct GlobalMetrics {
    /// Total connections created
    pub connections_created: u64,
    /// Active connections
    pub active_connections: usize,
    /// Total bytes sent across all connections
    pub total_bytes_sent: u64,
    /// Total bytes received across all connections
    pub total_bytes_received: u64,
    /// Total packets sent
    pub total_packets_sent: u64,
    /// Total packets received
    pub total_packets_received: u64,
    /// Total retransmissions
    pub total_retransmissions: u64,
    /// Buffer pool statistics
    pub buffer_pool_hits: u64,
    /// Buffer pool misses
    pub buffer_pool_misses: u64,
}

/// A counter after counting `n` more.
pub open spec fn counted(counter: u64, n: int) -> u64 {
    ((counter + n) % 0x1_0000_0000_0000_0000) as u64
}

/// A count after counting one up. It starts again at zero after its largest value.
pub open spec fn one_more(n: usize) -> usize {
    if n == usize::MAX {
        0
    } else {
        (n + 1) as usize
    }
}

/// A count after counting one down. Zero is followed by its largest value.
pub open spec fn one_fewer(n: usize) -> usize {
    if n == 0 {
        usize::MAX
    } else {
        (n - 1) as usize
    }
}

impl Default for GlobalMetrics {
    fn default() -> (r: Self)
        ensures
            r == (GlobalMetrics {
                connections_created: 0,
                active_connections: 0,
                total_bytes_sent: 0,
                total_bytes_received: 0,
                total_packets_sent: 0,
                total_packets_received: 0,
                total_retransmissions: 0,
                buffer_pool_hits: 0,
                buffer_pool_misses: 0,
            }),
    {
        GlobalMetrics {
            connections_created: 0,
            active_connections: 0,
            total_bytes_sent: 0,
            total_bytes_received: 0,
            total_packets_sent: 0,
            total_packets_received: 0,
            total_retransmissions: 0,
            buffer_pool_hits: 0,
            buffer_pool_misses: 0,
        }
    }
}

impl GlobalMetrics {
    /// Record a new connection.
    pub fn connection_created(&mut self)
        ensures
            *final(self) == (GlobalMetrics {
                connections_created: counted(old(self).connections_created, 1),
                active_connections: one_more(old(self).active_connections),
                ..*old(self)
            }),
    {
        self.connections_created = self.connections_created.wrapping_add(1);
        self.active_connections = self.active_connections.wrapping_add(1);
    }

    /// Record a connection closure.
    pub fn connection_closed(&mut self)
        ensures
            *final(self) == (GlobalMetrics {
                active_connections: one_fewer(old(self).active_connections),
                ..*old(self)
            }),
    {
        self.active_connections = self.active_connections.wrapping_sub(1);
    }

    /// Update metrics from connection stats (accumulates, not overwrites).
    pub fn update_from_stats(&mut self, stats: &KcpStats)
        ensures
            *final(self) == (GlobalMetrics {
                total_bytes_sent: counted(old(self).total_bytes_sent, stats.bytes_sent as int),
                total_bytes_received: counted(
                    old(self).total_bytes_received,
                    stats.bytes_received as int,
                ),
                total_packets_sent: counted(
                    old(self).total_packets_sent,
                    stats.packets_sent as int,
                ),
                total_packets_received: counted(
                    old(self).total_packets_received,
                    stats.packets_received as int,
                ),
                total_retransmissions: counted(
                    old(self).total_retransmissions,
                    stats.retransmissions as int,
                ),
                ..*old(self)
            }),
    {
        self.total_bytes_sent = self.total_bytes_sent.wrapping_add(stats.bytes_sent);
        self.total_bytes_received = self.total_bytes_received.wrapping_add(stats.bytes_received);
        self.total_packets_sent = self.total_packets_sent.wrapping_add(stats.packets_sent);
        self.total_packets_received = self.total_packets_received.wrapping_add(
            stats.packets_received,
        );
        self.total_retransmissions = self.total_retransmissions.wrapping_add(
            stats.retransmissions,
        );
    }

    /// Record buffer pool hit.
    pub fn buffer_pool_hit(&mut self)
        ensures
            *final(self) == (GlobalMetrics {
                buffer_pool_hits: counted(old(self).buffer_pool_hits, 1),
                ..*old(self)
            }),
    {
        self.buffer_pool_hits = self.buffer_pool_hits.wrapping_add(1);
    }

    /// Record buffer pool miss.
    pub fn buffer_pool_miss(&mut self)
        ensures
            *final(self) == (GlobalMetrics {
                buffer_pool_misses: counted(old(self).buffer_pool_misses, 1),
                ..*old(self)
            }),
    {
        self.buffer_pool_misses = self.buffer_pool_misses.wrapping_add(1);
    }

    /// Get current metrics snapshot.
    pub fn snapshot(&self) -> (r: MetricsSnapshot)
        ensures
            r == (MetricsSnapshot {
                connections_created: self.connections_created,
                active_connections: self.active_connections,
                total_bytes_sent: self.total_bytes_sent,
                total_bytes_received: self.total_bytes_received,
                total_packets_sent: self.total_packets_sent,
                total_packets_received: self.total_packets_received,
                total_retransmissions: self.total_retransmissions,
                buffer_pool_hits: self.buffer_pool_hits,
                buffer_pool_misses: self.buffer_pool_misses,
            }),
    {
        MetricsSnapshot {
            connections_created: self.connections_created,
            active_connections: self.active_connections,
            total_bytes_sent: self.total_bytes_sent,
            total_bytes_received: self.total_bytes_received,
            total_packets_sent: self.total_packets_sent,
            total_packets_received: self.total_packets_received,
            total_retransmissions: self.total_retransmissions,
            buffer_pool_hits: self.buffer_pool_hits,
            buffer_pool_misses: self.buffer_pool_misses,
        }
    }
}

/// Snapshot of metrics at a point in time.
#[derive(Debug, Clone, Copy, PartialEq, Eq, Structural)]
pub struct MetricsSnapshot {
    /// Total connections created
    pub connections_created: u64,
    /// Active connections
    pub active_connections: usize,
    /// Total bytes sent
    pub total_bytes_sent: u64,
    /// Total bytes received
    pub total_bytes_received: u64,
    /// Total packets sent
    pub total_packets_sent: u64,
    /// Total packets received
    pub total_packets_received: u64,
    /// Total retransmissions
    pub total_retransmissions: u64,
    /// Buffer pool hits
    pub buffer_pool_hits: u64,
    /// Buffer pool misses
    pub buffer_pool_misses: u64,
}

impl MetricsSnapshot {
    /// The parts of the packet loss rate: retransmissions, and packets sent. There is no rate
    /// before a packet has been sent.
    pub fn loss_parts(&self) -> (r: Option<(u64, u64)>)
        ensures
            r == (if self.total_packets_sent == 0 {
                None
            } else {
                Some((self.total_retransmissions, self.total_packets_sent))
            }),
    {
        if self.total_packets_sent == 0 {
            None
        } else {
            Some((self.total_retransmissions, self.total_packets_sent))
        }
    }

    /// The parts of the buffer pool hit rate: hits, and all requests. There is no rate before a
    /// request.
    pub fn hit_parts(&self) -> (r: Option<(u64, u128)>)
        ensures
            r == (if self.buffer_pool_hits + self.buffer_pool_misses == 0 {
                None
            } else {
                Some(
                    (
                        self.buffer_pool_hits,
                        (self.buffer_pool_hits + self.buffer_pool_misses) as u128,
                    ),
                )
            }),
    {
        let total: u128 = self.buffer_pool_hits as u128 + self.buffer_pool_misses as u128;
        if total == 0 {
            None
        } else {
            Some((self.buffer_pool_hits, total))
        }
    }

    /// All bytes, sent and received.
    pub fn total_bytes(&self) -> (r: u128)
        ensures
            r == self.total_bytes_sent + self.total_bytes_received,
    {
        self.total_bytes_sent as u128 + self.total_bytes_received as u128
    }
}

/// What a snapshot says about connections and traffic, with the loss rate in percent as text.
pub open spec fn traffic_text(s: MetricsSnapshot, loss: Seq<char>) -> Seq<char> {
    "KCP Metrics:\nConnections: "@ + text::decimal_of(s.connections_created as nat) + " created, "@
        + text::decimal_of(s.active_connections as nat) + " active\nTraffic: "@ + text::decimal_of(
        s.total_bytes_sent as nat,
    ) + " bytes sent, "@ + text::decimal_of(s.total_bytes_received as nat)
        + " bytes received\nPackets: "@ + text::decimal_of(s.total_packets_sent as nat)
        + " sent, "@ + text::decimal_of(s.total_packets_received as nat)
        + " received\nRetransmissions: "@ + text::decimal_of(s.total_retransmissions as nat)
        + " (loss rate: "@ + loss + "%)"@
}

/// What a snapshot reads as, with the two rates in percent as text.
pub open spec fn metrics_text(s: MetricsSnapshot, loss: Seq<char>, hit: Seq<char>) -> Seq<char> {
    traffic_text(s, loss) + "\nBuffer Pool: "@ + hit + "% hit rate ("@ + text::decimal_of(
        s.buffer_pool_hits as nat,
    ) + " hits, "@ + text::decimal_of(s.buffer_pool_misses as nat) + " misses)"@
}

/// Format what a snapshot says about connections and traffic, without the buffer pool. The loss
/// rate comes in percent, as text with two decimals.
pub fn format_traffic(snapshot: &MetricsSnapshot, loss: &str) -> (r: String)
    ensures
        r@ == traffic_text(*snapshot, loss@),
{
    let mut s = "KCP Metrics:\nConnections: ".to_owned();
    s.append(decimal(snapshot.connections_created).as_str());
    s.append(" created, ");
    s.append(decimal(snapshot.active_connections as u64).as_str());
    s.append(" active\nTraffic: ");
    s.append(decimal(snapshot.total_bytes_sent).as_str());
    s.append(" bytes sent, ");
    s.append(decimal(snapshot.total_bytes_received).as_str());
    s.append(" bytes received\nPackets: ");
    s.append(decimal(snapshot.total_packets_sent).as_str());
    s.append(" sent, ");
    s.append(decimal(snapshot.total_packets_received).as_str());
    s.append(" received\nRetransmissions: ");
    s.append(decimal(snapshot.total_retransmissions).as_str());
    s.append(" (loss rate: ");
    s.append(loss);
    s.append("%)");
    s
}

/// Format metrics for human-readable display. The two rates come in percent, as text: the loss
/// rate with two decimals, the hit rate with one.
pub fn format_metrics(snapshot: &MetricsSnapshot, loss: &str, hit: &str) -> (r: String)
    ensures
        r@ == metrics_text(*snapshot, loss@, hit@),
{
    let mut s = format_traffic(snapshot, loss);
    s.append("\nBuffer Pool: ");
    s.append(hit);
    s.append("% hit rate (");
    s.append(decimal(snapshot.buffer_pool_hits).as_str());
    s.append(" hits, ");
    s.append(decimal(snapshot.buffer_pool_misses).as_str());
    s.append(" misses)");
    s
}

/// RTT statistics for a connection.
#[derive(Debug, Clone, Copy, PartialEq, Eq, Structural)]
pub struct RttStats {
    /// Last sample
    pub current: u32,
    /// Average of the samples kept
    pub average: u32,
    /// Smallest sample ever
    pub minimum: u32,
    /// Largest sample ever
    pub maximum: u32,
    /// Standard deviation of the samples kept
    pub jitter: u32,
    /// How many samples are kept
    pub sample_count: usize,
}

/// Performance monitoring for individual connections.
pub struct ConnectionMonitor {
    start_time: u64,
    last_update: u64,
    peak_rtt: u32,
    min_rtt: Option<u32>,
    rtt_samples: Vec<u32>,
}

/// What a monitor stands for.
#[verifier::ext_equal]
pub struct MonitorModel {
    /// When it was made
    pub start_time: u64,
    /// When the last sample came
    pub last_update: u64,
    /// The largest sample ever
    pub peak_rtt: u32,
    /// The smallest sample ever
    pub min_rtt: Option<u32>,
    /// The samples that are kept
    pub samples: Seq<u32>,
}

impl View for ConnectionMonitor {
    type V = MonitorModel;

    closed spec fn view(&self) -> MonitorModel {
        MonitorModel {
            start_time: self.start_time,
            last_update: self.last_update,
            peak_rtt: self.peak_rtt,
            min_rtt: self.min_rtt,
            samples: self.rtt_samples@,
        }
    }
}

/// The sum of the samples.
pub open spec fn total(samples: Seq<u32>) -> nat
    decreases samples.len(),
{
    if samples.len() == 0 {
        0
    } else {
        total(samples.drop_last()) + samples.last() as nat
    }
}

impl MonitorModel {
    /// What holds of every monitor: there is a smallest sample once a sample has come, the
    /// samples lie between the smallest and the largest, and no more are kept than allowed.
    pub open spec fn wf(self) -> bool {
        &&& self.samples.len() <= MAX_SAMPLES
        &&& self.samples.len() > 0 <==> self.min_rtt is Some
        &&& self.min_rtt is None ==> self.peak_rtt == 0
        &&& forall|i: int|
            0 <= i < self.samples.len() ==> self.min_rtt->0 <= #[trigger] self.samples[i]
                <= self.peak_rtt
    }

    /// A sample has come.
    pub open spec fn sampled(self, rtt: u32, now: u64) -> Self {
        MonitorModel {
            peak_rtt: if rtt > self.peak_rtt {
                rtt
            } else {
                self.peak_rtt
            },
            min_rtt: match self.min_rtt {
                Some(min) => if rtt < min {
                    Some(rtt)
                } else {
                    Some(min)
                },
                None => Some(rtt),
            },
            samples: (if self.samples.len() >= MAX_SAMPLES {
                self.samples.skip(1)
            } else {
                self.samples
            }).push(rtt),
            last_update: now,
            ..self
        }
    }

    /// The average of the samples.
    pub open spec fn average(self) -> int {
        if self.samples.len() == 0 {
            0
        } else {
            total(self.samples) as int / self.samples.len() as int
        }
    }

    /// The statistics, given the standard deviation of the samples.
    pub open spec fn stats(self, jitter: u32) -> RttStats {
        let any = self.samples.len() > 0;
        RttStats {
            current: if any {
                self.samples.last()
            } else {
                0
            },
            average: self.average() as u32,
            minimum: match self.min_rtt {
                Some(min) => min,
                None => 0,
            },
            maximum: self.peak_rtt,
            jitter: if any {
                jitter
            } else {
                0
            },
            sample_count: self.samples.len() as usize,
        }
    }
}

/// The sum lies between as many times the smallest and as many times the largest.
proof fn lemma_total(samples: Seq<u32>, low: u32, high: u32)
    requires
        forall|i: int| 0 <= i < samples.len() ==> low <= #[trigger] samples[i] <= high,
    ensures
        low * samples.len() <= total(samples) <= high * samples.len(),
    decreases samples.len(),
{
    if samples.len() > 0 {
        let front = samples.drop_last();
        assert forall|i: int| 0 <= i < front.len() implies low <= #[trigger] front[i] <= high by {
            assert(samples[i] == front[i]);
        }
        lemma_total(front, low, high);
        assert(low <= samples[samples.len() - 1] <= high);
        let n = front.len() as int;
        let k = samples.len() as int;
        let t = total(front) as int;
        let last = samples.last();
        assert(low * k <= t + last <= high * k) by (nonlinear_arith)
            requires
                k == n + 1,
                low * n <= t <= high * n,
                low <= last <= high,
        ;
    } else {
        assert(low * 0 == 0 && high * 0 == 0);
    }
}

impl ConnectionMonitor {
    /// What holds of every monitor.
    pub open spec fn wf(&self) -> bool {
        self@.wf()
    }

    /// Create a new connection monitor.
    pub fn new(now: u64) -> (r: Self)
        ensures
            r.wf(),
            r@ == (MonitorModel {
                start_time: now,
                last_update: now,
                peak_rtt: 0,
                min_rtt: None,
                samples: Seq::empty(),
            }),
    {
        ConnectionMonitor {
            start_time: now,
            last_update: now,
            peak_rtt: 0,
            min_rtt: None,
            rtt_samples: Vec::with_capacity(1000),
        }
    }

    /// Update RTT statistics.
    pub fn update_rtt(&mut self, rtt: u32, now: u64)
        requires
            old(self).wf(),
        ensures
            final(self).wf(),
            final(self)@ == old(self)@.sampled(rtt, now),
    {
        let ghost m = self@;
        if rtt > self.peak_rtt {
            self.peak_rtt = rtt;
        }
        self.min_rtt = match self.min_rtt {
            Some(min) => if rtt < min {
                Some(rtt)
            } else {
                Some(min)
            },
            None => Some(rtt),
        };
        if self.rtt_samples.len() >= MAX_SAMPLES {
            self.rtt_samples.remove(0);
            assert(self.rtt_samples@ =~= m.samples.skip(1));
        }
        self.rtt_samples.push(rtt);
        self.last_update = now;
        proof {
            assert forall|i: int| 0 <= i < self@.samples.len() implies self@.min_rtt->0
                <= #[trigger] self@.samples[i] <= self@.peak_rtt by {
                if i < self@.samples.len() - 1 {
                    if m.samples.len() >= MAX_SAMPLES {
                        assert(self@.samples[i] == m.samples[i + 1]);
                    } else {
                        assert(self@.samples[i] == m.samples[i]);
                    }
                }
            }
        }
    }

    /// Get connection uptime in milliseconds.
    pub fn uptime(&self, now: u64) -> (r: u64)
        ensures
            r == (if now < self@.start_time {
                0
            } else {
                now - self@.start_time
            }),
    {
        now.saturating_sub(self.start_time)
    }

    /// Get time since last activity in milliseconds.
    pub fn idle_time(&self, now: u64) -> (r: u64)
        ensures
            r == (if now < self@.last_update {
                0
            } else {
                now - self@.last_update
            }),
    {
        now.saturating_sub(self.last_update)
    }

    /// The samples that are kept, from the oldest to the newest.
    pub fn samples(&self) -> (r: &Vec<u32>)
        ensures
            r@ == self@.samples,
    {
        &self.rtt_samples
    }

    /// The average of the samples that are kept.
    pub fn average(&self) -> (r: u32)
        requires
            self.wf(),
        ensures
            r == self@.average(),
    {
        let n: usize = self.rtt_samples.len();
        if n == 0 {
            return 0;
        }
        let mut sum: u64 = 0;
        let mut i: usize = 0;
        let ghost all = self@.samples;
        while i < n
            invariant
                n == self.rtt_samples@.len(),
                n <= MAX_SAMPLES,
                all == self.rtt_samples@,
                i <= n,
                sum == total(all.take(i as int)),
                sum <= i * 0xffff_ffff,
            decreases n - i,
        {
            proof {
                assert(all.take(i + 1).drop_last() =~= all.take(i as int));
            }
            sum = sum + self.rtt_samples[i] as u64;
            i = i + 1;
        }
        proof {
            assert(all.take(i as int) =~= all);
            lemma_total(all, 0, u32::MAX);
            let t = total(all) as int;
            let k = n as int;
            assert(t / k <= 0xffff_ffff) by (nonlinear_arith)
                requires
                    t <= 0xffff_ffff * k,
                    k > 0,
            ;
        }
        (sum / n as u64) as u32
    }

    /// Get RTT statistics, given the standard deviation of the samples.
    pub fn rtt_stats(&self, jitter: u32) -> (r: RttStats)
        requires
            self.wf(),
        ensures
            r == self@.stats(jitter),
    {
        let n: usize = self.rtt_samples.len();
        let current: u32 = if n > 0 {
            self.rtt_samples[n - 1]
        } else {
            0
        };
        let minimum: u32 = match self.min_rtt {
            Some(min) => min,
            None => 0,
        };
        RttStats {
            current,
            average: self.average(),
            minimum,
            maximum: self.peak_rtt,
            jitter: if n > 0 {
                jitter
            } else {
                0
            },
            sample_count: n,
        }
    }
}

/// The average lies between the smallest and the largest sample.
pub proof fn law_average_lies_between(m: MonitorModel)
    requires
        m.wf(),
        m.samples.len() > 0,
    ensures
        m.min_rtt->0 <= m.average() <= m.peak_rtt,
{
    let low = m.min_rtt->0;
    let high = m.peak_rtt;
    lemma_total(m.samples, low, high);
    let t = total(m.samples) as int;
    let k = m.samples.len() as int;
    assert(low <= t / k <= high) by (nonlinear_arith)
        requires
            low * k <= t <= high * k,
            k > 0,
    ;
}

/// A sample is the current one once it has come; the smallest and the largest take it into
/// account, together with all samples before it; and one more is kept, up to the limit.
pub proof fn law_sample_is_counted(m: MonitorModel, rtt: u32, now: u64, j0: u32, j1: u32)
    requires
        m.wf(),
    ensures
        ({
            let before = m.stats(j0);
            let after = m.sampled(rtt, now).stats(j1);
            &&& after.current == rtt
            &&& after.maximum == (if rtt > before.maximum {
                rtt
            } else {
                before.maximum
            })
            &&& after.minimum == (if before.sample_count == 0 || rtt < before.minimum {
                rtt
            } else {
                before.minimum
            })
            &&& after.sample_count == (if before.sample_count < MAX_SAMPLES {
                before.sample_count + 1
            } else {
                MAX_SAMPLES as int
            })
        }),
{
}

/// A connection that is closed undoes what its creation did to the number of active ones.
pub proof fn law_closing_undoes_opening(active: usize)
    ensures
        one_fewer(one_more(active)) == active,
{
}

/// Counting adds up, whatever the steps, and loses nothing before 64 bits are full.
pub proof fn law_counting_adds_up(counter: u64, a: int, b: int)
    requires
        a >= 0,
        b >= 0,
    ensures
        counted(counted(counter, a), b) == counted(counter, a + b),
        counter + a <= 0xffff_ffff_ffff_ffff ==> counted(counter, a) == counter + a,
        counted(counter, 0x1_0000_0000_0000_0000) == counter,
{
}

/// Opening counts one more, closing one fewer.
pub proof fn law_open_connections_are_counted(n: usize)
    ensures
        n < usize::MAX ==> one_more(n) == n + 1,
        n > 0 ==> one_fewer(n) == n - 1,
        one_more(usize::MAX) == 0,
        one_fewer(0) == usize::MAX,
{
}

/// A monitor keeps the latest thousand samples in order, and the smallest and the largest of all.
pub proof fn law_samples_are_kept(m: MonitorModel, rtt: u32, now: u64)
    requires
        m.wf(),
    ensures
        ({
            let after = m.sampled(rtt, now);
            let n = m.samples.len();
            &&& after.samples.len() == (if n < 1000 {
                n + 1
            } else {
                1000
            })
            &&& after.samples.last() == rtt
            &&& n < 1000 ==> after.samples.drop_last() == m.samples
            &&& n == 1000 ==> after.samples.drop_last() == m.samples.skip(1)
            &&& after.peak_rtt >= m.peak_rtt && after.peak_rtt >= rtt
            &&& after.peak_rtt == m.peak_rtt || after.peak_rtt == rtt
            &&& after.min_rtt matches Some(low) && low <= rtt && (low == rtt || m.min_rtt == Some(
                low,
            ))
            &&& m.min_rtt matches Some(before) ==> after.min_rtt->0 <= before
            &&& after.last_update == now
            &&& after.start_time == m.start_time
        }),
{
    let after = m.sampled(rtt, now);
    if m.samples.len() < 1000 {
        assert(after.samples.drop_last() =~= m.samples);
    } else {
        assert(after.samples.drop_last() =~= m.samples.skip(1));
    }
}

/// The sum of samples grows by each of them.
pub proof fn law_total_adds_up(samples: Seq<u32>, last: u32)
    ensures
        total(Seq::empty()) == 0,
        total(samples.push(last)) == total(samples) + last,
{
    assert(samples.push(last).drop_last() =~= samples);
}

/// The average is the sum divided by the number, rounded down, and what the statistics show is
/// what is kept.
pub proof fn law_statistics_show_samples(m: MonitorModel, jitter: u32)
    requires
        m.wf(),
        m.samples.len() > 0,
    ensures
        ({
            let n = m.samples.len();
            let r = m.stats(jitter);
            &&& r.average * n <= total(m.samples) < (r.average + 1) * n
            &&& r.current == m.samples.last()
            &&& m.min_rtt == Some(r.minimum)
            &&& r.maximum == m.peak_rtt
            &&& r.jitter == jitter
            &&& r.sample_count == n
        }),
{
    let n = m.samples.len() as int;
    let t = total(m.samples) as int;
    law_average_lies_between(m);
    assert((t / n) * n <= t < (t / n + 1) * n) by (nonlinear_arith)
        requires
            n > 0,
            t >= 0,
    ;
}

/// Without a sample the statistics are zero.
pub proof fn law_no_samples(m: MonitorModel, jitter: u32)
    requires
        m.wf(),
        m.samples.len() == 0,
    ensures
        m.stats(jitter) == (RttStats {
            current: 0,
            average: 0,
            minimum: 0,
            maximum: 0,
            jitter: 0,
            sample_count: 0,
        }),
{
}

} // verus!
