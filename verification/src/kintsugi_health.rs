//! Kintsugi approach to system health: errors are golden seams.
//! System health is a repair problem, not a monitoring problem.
//!
//! Severity and repair quality are fixed-point numbers in basis points: 10000
//! stands for 1.0, 4000 for 0.4. Beauty is exact in hundred-thousandths (100000
//! stands for 1.0), and the beauty of a whole system is an exact fraction.
use vstd::prelude::*;
use std::time::{Duration, SystemTime, SystemTimeError};

verus! {

/// One whole score, in basis points.
pub const SCORE_ONE: u32 = 10000;

/// One whole beauty, in hundred-thousandths.
pub const BEAUTY_ONE: u32 = 100000;

/// An exact non-negative fraction `numerator / denominator`.
#[derive(Debug, Clone, Copy, PartialEq, Eq, Structural)]
pub struct Fraction {
    pub numerator: u128,
    pub denominator: u128,
}

/// A golden seam: a repaired error in the system.
#[derive(Debug)]
pub struct GoldenSeam {
    /// How severe the original fault was (0 = trivial, 10000 = critical).
    pub severity: u32,
    /// Where in the system hierarchy the fault occurred.
    pub position: String,
    /// How well the repair was executed (0 = poor, 10000 = perfect).
    pub repair_quality: u32,
    /// Timestamp of the repair, in seconds since the Unix epoch.
    pub repaired_at: u64,
    /// Description of the repair.
    pub description: String,
}

/// Beauty of a seam, in hundred-thousandths: 0.4 × severity + 0.6 × repair quality
/// (both in basis points), exactly, at most one whole beauty.
pub open spec fn beauty_of(severity: nat, repair_quality: nat) -> nat {
    let weight = 4 * severity + 6 * repair_quality;
    if weight > 100000 { 100000 } else { weight }
}

impl GoldenSeam {
    /// The beauty score: a well-repaired severe fault is more beautiful than an untested system.
    pub fn beauty(&self) -> (b: u32)
        ensures
            b == beauty_of(self.severity as nat, self.repair_quality as nat),
            b <= BEAUTY_ONE,
    {
        let weight: u64 = 4 * self.severity as u64 + 6 * self.repair_quality as u64;
        if weight > 100000 {
            100000
        } else {
            weight as u32
        }
    }
}

impl Clone for GoldenSeam {
    fn clone(&self) -> (c: Self)
        ensures
            c == *self,
    {
        GoldenSeam {
            severity: self.severity,
            position: self.position.clone(),
            repair_quality: self.repair_quality,
            repaired_at: self.repaired_at,
            description: self.description.clone(),
        }
    }
}

/// Status of a component in a health report.
#[derive(Debug, Clone, Copy, PartialEq, Eq, Structural)]
pub enum HealthStatus {
    Healthy,
    Degraded,
    Faulted,
    Unknown,
}

/// Severity of a status, in basis points.
pub open spec fn status_severity(status: HealthStatus) -> nat {
    match status {
        HealthStatus::Healthy => 0,
        HealthStatus::Degraded => 4000,
        HealthStatus::Faulted => 9000,
        HealthStatus::Unknown => 6000,
    }
}

impl HealthStatus {
    /// Severity of the status, in basis points.
    pub fn severity(&self) -> (s: u32)
        ensures
            s == status_severity(*self),
    {
        match self {
            HealthStatus::Healthy => 0,
            HealthStatus::Degraded => 4000,
            HealthStatus::Faulted => 9000,
            HealthStatus::Unknown => 6000,
        }
    }
}

/// A health report entry from PLATO monitoring.
#[derive(Debug, Clone)]
pub struct HealthReport {
    pub component: String,
    pub status: HealthStatus,
    pub message: String,
    /// The reported metric, in thousandths, when there is one.
    pub metric_value: Option<i64>,
}

/// Bonus to repair quality earned by `repairs` earlier repairs: 0.02 per repair, at most 0.3.
pub open spec fn experience_bonus(repairs: nat) -> nat {
    if repairs * 200 > 3000 { 3000 } else { repairs * 200 }
}

/// Quality of a repair of a component in `status`, after `repairs` earlier repairs.
pub open spec fn repair_quality_for(status: HealthStatus, repairs: nat) -> nat {
    let base = match status {
        HealthStatus::Healthy => 10000,
        HealthStatus::Degraded => 6000 + experience_bonus(repairs),
        HealthStatus::Faulted => 3000 + experience_bonus(repairs),
        HealthStatus::Unknown => 5000 + experience_bonus(repairs),
    };
    if base > 10000 { 10000 } else { base }
}

/// `seam` is the repair of `report` made after `repairs` earlier repairs.
pub open spec fn is_repair_of(seam: GoldenSeam, report: HealthReport, repairs: nat) -> bool {
    &&& seam.severity == status_severity(report.status)
    &&& seam.position@ == report.component@
    &&& seam.repair_quality == repair_quality_for(report.status, repairs)
    &&& seam.description@ == report.message@
}

/// Sum of the beauty of the seams.
pub open spec fn total_beauty(seams: Seq<GoldenSeam>) -> nat
    decreases seams.len(),
{
    if seams.len() == 0 {
        0
    } else {
        total_beauty(seams.drop_last()) + beauty_of(
            seams.last().severity as nat,
            seams.last().repair_quality as nat,
        )
    }
}

/// Beauty of a whole system with these seams, as numerator and denominator of an exact
/// fraction: 1/2 when nothing was repaired, otherwise the average seam beauty plus 0.01
/// per seam (at most 0.2), at most 1.
pub open spec fn system_beauty_of(seams: Seq<GoldenSeam>) -> (nat, nat) {
    if seams.len() == 0 {
        (1, 2)
    } else {
        let n = seams.len();
        let volume_bonus: nat = if n * 1000 > 20000 { 20000 } else { n * 1000 };
        let num = total_beauty(seams) + n * volume_bonus;
        (if num > 100000 * n { 100000 * n } else { num }, 100000 * n)
    }
}

/// Number of seams whose severity lies in `lo .. hi`.
pub open spec fn count_severity_in(seams: Seq<GoldenSeam>, lo: int, hi: int) -> nat
    decreases seams.len(),
{
    if seams.len() == 0 {
        0
    } else {
        count_severity_in(seams.drop_last(), lo, hi) + if lo <= seams.last().severity < hi {
            1nat
        } else {
            0nat
        }
    }
}

/// Lower bound of the middle severity band (0.3).
pub open spec fn mid_severity() -> int {
    3000
}

/// Lower bound of the high severity band (0.7).
pub open spec fn high_severity() -> int {
    7000
}

/// Above every severity.
pub open spec fn beyond_severity() -> int {
    u32::MAX + 1
}

/// Repair quality never falls as experience grows: for every status, a repair made after
/// more earlier repairs is at least as good.
pub proof fn lemma_quality_grows_with_experience(status: HealthStatus, earlier: nat, later: nat)
    requires
        earlier <= later,
    ensures
        repair_quality_for(status, earlier) <= repair_quality_for(status, later),
{
    assert(earlier * 200 <= later * 200) by (nonlinear_arith)
        requires earlier <= later;
}

/// The three severity bands of `severity_distribution` split the seams: every seam
/// falls in exactly one of them.
pub proof fn lemma_severity_bands_partition(seams: Seq<GoldenSeam>)
    ensures
        count_severity_in(seams, 0, mid_severity()) + count_severity_in(seams, mid_severity(), high_severity())
            + count_severity_in(seams, high_severity(), beyond_severity()) == seams.len(),
    decreases seams.len(),
{
    if seams.len() > 0 {
        lemma_severity_bands_partition(seams.drop_last());
    }
}

/// `seam` is the repair of some health report, made after some number of earlier repairs.
pub open spec fn is_some_repair(seam: GoldenSeam) -> bool {
    exists|report: HealthReport, repairs: nat| #[trigger] is_repair_of(seam, report, repairs)
}

/// Every repair is at least 0.52 beautiful.
proof fn lemma_repair_beauty_floor(seam: GoldenSeam)
    requires
        is_some_repair(seam),
    ensures
        beauty_of(seam.severity as nat, seam.repair_quality as nat) >= 52000,
{
    let (report, repairs) = choose|report: HealthReport, repairs: nat| #[trigger] is_repair_of(seam, report, repairs);
    assert(is_repair_of(seam, report, repairs));
}

proof fn lemma_total_beauty_floor(seams: Seq<GoldenSeam>)
    requires
        forall|i: int| 0 <= i < seams.len() ==> is_some_repair(#[trigger] seams[i]),
    ensures
        total_beauty(seams) >= 52000 * seams.len(),
    decreases seams.len(),
{
    if seams.len() > 0 {
        let pre = seams.drop_last();
        assert forall|i: int| 0 <= i < pre.len() implies is_some_repair(#[trigger] pre[i]) by {
            assert(pre[i] == seams[i]);
        }
        lemma_total_beauty_floor(pre);
        lemma_repair_beauty_floor(seams[seams.len() - 1]);
    }
}

proof fn lemma_total_beauty_uniform(seams: Seq<GoldenSeam>, b: nat)
    requires
        forall|i: int|
            0 <= i < seams.len() ==> beauty_of(#[trigger] seams[i].severity as nat, seams[i].repair_quality as nat)
                == b,
    ensures
        total_beauty(seams) == seams.len() * b,
    decreases seams.len(),
{
    if seams.len() > 0 {
        let pre = seams.drop_last();
        assert forall|i: int| 0 <= i < pre.len() implies beauty_of(
            #[trigger] pre[i].severity as nat,
            pre[i].repair_quality as nat,
        ) == b by {
            assert(pre[i] == seams[i]);
        }
        lemma_total_beauty_uniform(pre, b);
        assert(seams.last() == seams[seams.len() - 1]);
        assert(pre.len() * b + b == seams.len() * b) by (nonlinear_arith)
            requires pre.len() + 1 == seams.len();
    }
}

/// Beauty of a system whose `n >= 1` seams all have beauty `b` (in hundred-thousandths):
/// `b` plus a volume bonus of 1000 per seam, at most 20000, the whole at most 100000 —
/// as a fraction over `100000 · n`, the numerator is `n` times that.
pub proof fn lemma_uniform_system_beauty(seams: Seq<GoldenSeam>, b: nat)
    requires
        seams.len() >= 1,
        forall|i: int|
            0 <= i < seams.len() ==> beauty_of(#[trigger] seams[i].severity as nat, seams[i].repair_quality as nat)
                == b,
    ensures
        ({
            let n = seams.len();
            let bonus: nat = if n * 1000 <= 20000 { n * 1000 } else { 20000 };
            let per_seam: nat = if b + bonus <= 100000 { b + bonus } else { 100000 };
            &&& system_beauty_of(seams).1 == 100000 * n
            &&& system_beauty_of(seams).0 == n * per_seam
        }),
{
    lemma_total_beauty_uniform(seams, b);
    let n = seams.len();
    let bonus: nat = if n * 1000 <= 20000 { n * 1000 } else { 20000 };
    assert(n * b + n * bonus == n * (b + bonus)) by (nonlinear_arith);
    assert((n * (b + bonus) > 100000 * n) == (b + bonus > 100000)) by (nonlinear_arith)
        requires n >= 1;
    assert(n * 100000 == 100000 * n) by (nonlinear_arith);
}

/// One more seam of the same beauty never makes the system less beautiful: the volume
/// bonus never drops as seams are added.
pub proof fn lemma_more_seams_never_less_beautiful(seams: Seq<GoldenSeam>, extra: GoldenSeam, b: nat)
    requires
        seams.len() >= 1,
        forall|i: int|
            0 <= i < seams.len() ==> beauty_of(#[trigger] seams[i].severity as nat, seams[i].repair_quality as nat)
                == b,
        beauty_of(extra.severity as nat, extra.repair_quality as nat) == b,
    ensures
        ({
            let (num, den) = system_beauty_of(seams);
            let (num2, den2) = system_beauty_of(seams.push(extra));
            num2 * den >= num * den2
        }),
{
    let more = seams.push(extra);
    assert forall|i: int| 0 <= i < more.len() implies beauty_of(
        #[trigger] more[i].severity as nat,
        more[i].repair_quality as nat,
    ) == b by {
        if i < seams.len() {
            assert(more[i] == seams[i]);
        }
    }
    lemma_uniform_system_beauty(seams, b);
    lemma_uniform_system_beauty(more, b);
    let n = seams.len();
    let bonus: nat = if n * 1000 <= 20000 { n * 1000 } else { 20000 };
    let m0: nat = if b + bonus <= 100000 { b + bonus } else { 100000 };
    let bonus1: nat = if (n + 1) * 1000 <= 20000 { (n + 1) * 1000 } else { 20000 };
    let m1: nat = if b + bonus1 <= 100000 { b + bonus1 } else { 100000 };
    assert(bonus1 >= bonus);
    assert(m1 >= m0);
    assert(((n + 1) * m1) * (100000 * n) >= (n * m0) * (100000 * (n + 1))) by (nonlinear_arith)
        requires m1 >= m0, n >= 1;
}

/// A system whose seams are all repairs is more beautiful than a system that was never
/// tested: once at least one fault has been repaired, whatever the reports were, the
/// system beauty exceeds the 0.5 of an untested system.
pub proof fn lemma_repaired_system_beats_untested(seams: Seq<GoldenSeam>)
    requires
        seams.len() > 0,
        forall|i: int| 0 <= i < seams.len() ==> is_some_repair(#[trigger] seams[i]),
    ensures
        2 * system_beauty_of(seams).0 > system_beauty_of(seams).1,
        system_beauty_of(Seq::<GoldenSeam>::empty()) == (1nat, 2nat),
{
    lemma_total_beauty_floor(seams);
}

/// Kintsugi-style health analyzer.
#[derive(Debug, Clone)]
pub struct KintsugiHealth {
    seams: Vec<GoldenSeam>,
}

/// The clock, read as whole seconds since the Unix epoch (0 when the clock is before it).
fn unix_now_secs() -> u64 {
    match duration_since_epoch(&system_time_now()) {
        Ok(d) => duration_whole_secs(&d),
        Err(_) => 0,
    }
}

impl KintsugiHealth {
    /// The seams made so far, oldest first.
    pub closed spec fn spec_seams(&self) -> Seq<GoldenSeam> {
        self.seams@
    }

    /// Number of repairs made so far: one seam per repair.
    pub open spec fn spec_repair_count(&self) -> nat {
        self.spec_seams().len()
    }

    /// An analyzer that has made no repair.
    pub fn new() -> (k: Self)
        ensures
            k.spec_seams() == Seq::<GoldenSeam>::empty(),
            k.spec_repair_count() == 0,
    {
        let k = KintsugiHealth { seams: Vec::new() };
        assert(k.spec_seams() =~= Seq::<GoldenSeam>::empty());
        k
    }

    /// Treat a health report as a repair problem, stamping the seam with the clock.
    pub fn health_as_repair(&mut self, health_report: &HealthReport) -> (seam: GoldenSeam)
        requires
            old(self).spec_repair_count() < usize::MAX,
        ensures
            is_repair_of(seam, *health_report, old(self).spec_repair_count()),
            final(self).spec_seams() == old(self).spec_seams().push(seam),
            final(self).spec_repair_count() == old(self).spec_repair_count() + 1,
    {
        let now = unix_now_secs();
        self.health_as_repair_at(health_report, now)
    }

    /// Treat a health report as a repair problem made at time `now`: every issue is an
    /// opportunity for a golden seam, and repair quality improves with experience.
    pub fn health_as_repair_at(&mut self, health_report: &HealthReport, now: u64) -> (seam: GoldenSeam)
        requires
            old(self).spec_repair_count() < usize::MAX,
        ensures
            is_repair_of(seam, *health_report, old(self).spec_repair_count()),
            seam.repaired_at == now,
            final(self).spec_seams() == old(self).spec_seams().push(seam),
            final(self).spec_repair_count() == old(self).spec_repair_count() + 1,
    {
        let severity = health_report.status.severity();
        let position = health_report.component.clone();
        let repairs = self.seams.len();
        let experience_bonus: u32 = if repairs > 15 {
            3000
        } else {
            repairs as u32 * 200
        };
        let base_quality: u32 = match health_report.status {
            HealthStatus::Healthy => 10000,
            HealthStatus::Degraded => 6000 + experience_bonus,
            HealthStatus::Faulted => 3000 + experience_bonus,
            HealthStatus::Unknown => 5000 + experience_bonus,
        };
        let repair_quality = if base_quality > 10000 { 10000 } else { base_quality };
        let seam = GoldenSeam {
            severity,
            position,
            repair_quality,
            repaired_at: now,
            description: health_report.message.clone(),
        };
        self.seams.push(seam.clone());
        seam
    }

    /// Process several health reports, in order.
    pub fn repair_all(&mut self, reports: &[HealthReport]) -> (seams: Vec<GoldenSeam>)
        requires
            old(self).spec_repair_count() + reports@.len() <= usize::MAX,
        ensures
            seams@.len() == reports@.len(),
            forall|i: int| 0 <= i < reports@.len() ==> is_repair_of(
                #[trigger] seams@[i],
                reports@[i],
                (old(self).spec_repair_count() + i) as nat,
            ),
            final(self).spec_seams() == old(self).spec_seams() + seams@,
            final(self).spec_repair_count() == old(self).spec_repair_count() + reports@.len(),
    {
        let mut seams: Vec<GoldenSeam> = Vec::new();
        let mut i: usize = 0;
        while i < reports.len()
            invariant
                0 <= i <= reports@.len(),
                seams@.len() == i,
                self.spec_repair_count() == (old(self).spec_repair_count() + i) as nat,
                self.spec_repair_count() + (reports@.len() - i) <= usize::MAX,
                self.spec_seams() == old(self).spec_seams() + seams@,
                forall|k: int| 0 <= k < i ==> is_repair_of(
                    #[trigger] seams@[k],
                    reports@[k],
                    (old(self).spec_repair_count() + k) as nat,
                ),
            decreases reports@.len() - i,
        {
            let seam = self.health_as_repair(&reports[i]);
            let ghost prev = seams@;
            seams.push(seam);
            assert(old(self).spec_seams() + seams@ =~= (old(self).spec_seams() + prev).push(seam));
            i += 1;
        }
        seams
    }

    /// Overall system beauty: a system with well-repaired faults is more beautiful
    /// than a system that was never tested.
    pub fn system_beauty(&self) -> (b: Fraction)
        ensures
            (b.numerator as nat, b.denominator as nat) == system_beauty_of(self.spec_seams()),
            b.numerator <= b.denominator,
    {
        let n = self.seams.len();
        if n == 0 {
            return Fraction { numerator: 1, denominator: 2 };
        }
        let mut sum: u128 = 0;
        let mut i: usize = 0;
        assert(self.seams@.subrange(0, 0) =~= Seq::<GoldenSeam>::empty());
        while i < n
            invariant
                n == self.seams@.len(),
                0 <= i <= n,
                sum == total_beauty(self.seams@.subrange(0, i as int)),
                sum <= 100000 * i,
            decreases n - i,
        {
            let ghost next = self.seams@.subrange(0, i + 1);
            assert(next.drop_last() =~= self.seams@.subrange(0, i as int));
            let b = self.seams[i].beauty();
            sum = sum + b as u128;
            i += 1;
        }
        assert(self.seams@.subrange(0, n as int) =~= self.seams@);
        let nn = n as u128;
        let volume_bonus: u128 = if n > 20 { 20000 } else { nn * 1000 };
        assert(nn * volume_bonus <= 20000 * nn) by (nonlinear_arith)
            requires volume_bonus <= 20000;
        let num = sum + nn * volume_bonus;
        let den = 100000 * nn;
        if num > den {
            Fraction { numerator: den, denominator: den }
        } else {
            Fraction { numerator: num, denominator: den }
        }
    }

    /// All golden seams, oldest first.
    pub fn seams(&self) -> (s: &[GoldenSeam])
        ensures
            s@ == self.spec_seams(),
    {
        self.seams.as_slice()
    }

    /// Number of repairs made so far.
    pub fn repair_count(&self) -> (n: usize)
        ensures
            n == self.spec_repair_count(),
    {
        self.seams.len()
    }

    /// Count seams by severity band: below 0.3, from 0.3 up to 0.7, and 0.7 or above.
    pub fn severity_distribution(&self) -> (counts: (usize, usize, usize))
        ensures
            counts.0 == count_severity_in(self.spec_seams(), 0, mid_severity()),
            counts.1 == count_severity_in(self.spec_seams(), mid_severity(), high_severity()),
            counts.2 == count_severity_in(self.spec_seams(), high_severity(), beyond_severity()),
    {
        let n = self.seams.len();
        let mut low: usize = 0;
        let mut mid: usize = 0;
        let mut high: usize = 0;
        let mut i: usize = 0;
        assert(self.seams@.subrange(0, 0) =~= Seq::<GoldenSeam>::empty());
        while i < n
            invariant
                n == self.seams@.len(),
                0 <= i <= n,
                low == count_severity_in(self.seams@.subrange(0, i as int), 0, mid_severity()),
                mid == count_severity_in(self.seams@.subrange(0, i as int), mid_severity(), high_severity()),
                high == count_severity_in(self.seams@.subrange(0, i as int), high_severity(), beyond_severity()),
                low + mid + high == i,
            decreases n - i,
        {
            let ghost next = self.seams@.subrange(0, i + 1);
            assert(next.drop_last() =~= self.seams@.subrange(0, i as int));
            let s = self.seams[i].severity;
            if s < 3000 {
                low += 1;
            } else if s < 7000 {
                mid += 1;
            } else {
                high += 1;
            }
            i += 1;
        }
        assert(self.seams@.subrange(0, n as int) =~= self.seams@);
        (low, mid, high)
    }
}

impl Default for KintsugiHealth {
    fn default() -> (k: Self)
        ensures
            k.spec_seams() == Seq::<GoldenSeam>::empty(),
            k.spec_repair_count() == 0,
    {
        Self::new()
    }
}

#[verifier::external_type_specification]
#[verifier::external_body]
pub struct ExSystemTime(SystemTime);

#[verifier::external_type_specification]
#[verifier::external_body]
pub struct ExSystemTimeError(SystemTimeError);

/// `SystemTime::now`: the current time of the system clock. Nothing is stated of it:
/// it depends on the machine and the moment of the call.
#[verifier::external_body]
fn system_time_now() -> SystemTime {
    SystemTime::now()
}

/// `SystemTime::duration_since(UNIX_EPOCH)`: the time elapsed since the Unix epoch, or an
/// error when `t` lies before it. Nothing is stated of which comes back, nor of the duration.
#[verifier::external_body]
fn duration_since_epoch(t: &SystemTime) -> Result<Duration, SystemTimeError> {
    t.duration_since(std::time::UNIX_EPOCH)
}

/// `Duration::as_secs`: the whole seconds of a duration. `Duration` is opaque here, so
/// nothing is stated of the number.
#[verifier::external_body]
fn duration_whole_secs(d: &Duration) -> u64 {
    d.as_secs()
}

} // verus!
