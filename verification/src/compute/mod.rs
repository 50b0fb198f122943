//! The options that drive a computation and the limits one call holds to.

pub mod classic;
pub mod f4;
pub mod clock;
pub mod interreduce;
pub mod primes;
pub mod signature;
pub mod small31;

use std::sync::Arc;
use std::sync::atomic::AtomicBool;
use std::time::{Duration, Instant};
use vstd::prelude::*;

use crate::monomial::degree_of;
use crate::poly::Polynomial;
use crate::verify::{RecordSizes, VerifyLimits};
use self::clock::{flag_is_set, instant_after, new_flag, reached, same_flag, set_flag, share_flag};

verus! {

/// The engine that computes a basis.
#[derive(Clone, Copy, Debug, PartialEq, Eq, Structural)]
pub enum Backend {
    /// Batch the critical pairs by degree and reduce one sparse matrix per
    /// batch. This is the default.
    F4,
    /// Process the critical pairs one at a time in signature order.
    Classic,
}

impl Default for Backend {
    fn default() -> (b: Backend)
        ensures
            b == Backend::F4,
    {
        Backend::F4
    }
}

/// A one-way cancellation token shared by one or more computations.
///
/// Clones observe the same flag. [`CancellationToken::cancel`] sets the flag
/// and no operation resets it. Equality compares token identity.
#[derive(Clone, Debug)]
pub struct CancellationToken(Arc<AtomicBool>);

impl Default for CancellationToken {
    fn default() -> (t: CancellationToken) {
        CancellationToken(new_flag())
    }
}

impl CancellationToken {
    /// Make an unset cancellation token.
    pub fn new() -> (t: CancellationToken) {
        CancellationToken(new_flag())
    }

    /// Request cancellation.
    pub fn cancel(&self) {
        set_flag(&self.0)
    }

    /// Report whether cancellation was requested.
    pub fn is_cancelled(&self) -> (b: bool) {
        flag_is_set(&self.0)
    }

    /// The flag this token sets.
    pub closed spec fn flag(&self) -> Arc<AtomicBool> {
        self.0
    }

    /// Return the atomic flag shared with this token.
    pub fn shared_flag(&self) -> (f: Arc<AtomicBool>)
        ensures
            f == self.flag(),
    {
        share_flag(&self.0)
    }
}

impl PartialEq for CancellationToken {
    /// Two tokens are equal when they share one flag.
    #[verifier::external_body]
    fn eq(&self, other: &Self) -> (b: bool) {
        same_flag(&self.0, &other.0)
    }
}

impl Eq for CancellationToken {}

/// The deadline and the memory limit of one call.
///
/// The default budget stops nothing. A budget holds a duration and not an
/// instant: the deadline starts when the call that receives it starts.
#[derive(Clone, Debug, PartialEq, Eq)]
pub struct Budget {
    timeout: Option<Duration>,
    memory_limit: Option<usize>,
    cancellation: Option<CancellationToken>,
}

impl Default for Budget {
    fn default() -> (b: Budget)
        ensures
            b.timeout_spec() is None,
            b.memory_limit_spec() is None,
            b.cancellation_spec() is None,
    {
        Budget { timeout: None, memory_limit: None, cancellation: None }
    }
}

impl Budget {
    pub closed spec fn timeout_spec(&self) -> Option<Duration> {
        self.timeout
    }

    pub closed spec fn memory_limit_spec(&self) -> Option<usize> {
        self.memory_limit
    }

    pub closed spec fn cancellation_spec(&self) -> Option<CancellationToken> {
        self.cancellation
    }

    /// A budget that stops nothing.
    pub open spec fn is_unlimited(&self) -> bool {
        &&& self.timeout_spec() is None
        &&& self.memory_limit_spec() is None
        &&& self.cancellation_spec() is None
    }

    /// Nothing but the memory limit can stop a call under this budget: it
    /// has no timeout and no cancellation token.
    pub open spec fn is_open(&self) -> bool {
        &&& self.timeout_spec() is None
        &&& self.cancellation_spec() is None
    }

    /// The budget that stops nothing: no deadline, no memory limit, and no
    /// cancellation token.
    pub fn new() -> (b: Budget)
        ensures
            b.is_unlimited(),
    {
        Budget { timeout: None, memory_limit: None, cancellation: None }
    }

    /// Stop the call after this much time.
    pub fn timeout(self, timeout: Duration) -> (b: Budget)
        ensures
            b.timeout_spec() == Some(timeout),
            b.memory_limit_spec() == self.memory_limit_spec(),
            b.cancellation_spec() == self.cancellation_spec(),
    {
        Budget { timeout: Some(timeout), ..self }
    }

    /// Stop the call once the data it tracks passes this many bytes.
    pub fn memory_limit(self, bytes: usize) -> (b: Budget)
        ensures
            b.timeout_spec() == self.timeout_spec(),
            b.memory_limit_spec() == Some(bytes),
            b.cancellation_spec() == self.cancellation_spec(),
    {
        Budget { memory_limit: Some(bytes), ..self }
    }

    /// Stop the call when `token` is cancelled.
    pub fn cancellation(self, token: CancellationToken) -> (b: Budget)
        ensures
            b.timeout_spec() == self.timeout_spec(),
            b.memory_limit_spec() == self.memory_limit_spec(),
            b.cancellation_spec() == Some(token),
    {
        Budget { cancellation: Some(token), ..self }
    }

    /// The instant the deadline stands at, taken now.
    fn deadline(&self) -> (d: Option<Instant>)
        ensures
            self.timeout_spec() is None ==> d is None,
    {
        match self.timeout {
            Some(timeout) => instant_after(Instant::now(), timeout),
            None => None,
        }
    }
}

/// The backend, the budget, and the thread count of one computation.
#[derive(Clone, Debug, PartialEq, Eq)]
pub struct ComputeOptions {
    backend: Backend,
    budget: Budget,
    threads: Option<usize>,
}

impl Default for ComputeOptions {
    fn default() -> (o: ComputeOptions)
        ensures
            o.backend_spec() == Backend::F4,
            o.budget_spec().is_unlimited(),
            o.threads_spec() is None,
    {
        ComputeOptions { backend: Backend::F4, budget: Budget::new(), threads: None }
    }
}

impl ComputeOptions {
    pub closed spec fn backend_spec(&self) -> Backend {
        self.backend
    }

    pub closed spec fn budget_spec(&self) -> Budget {
        self.budget
    }

    pub closed spec fn threads_spec(&self) -> Option<usize> {
        self.threads
    }

    /// The default options: the F4 backend, no deadline, no memory limit,
    /// no cancellation token, and the thread count of the global pool.
    pub fn new() -> (o: ComputeOptions)
        ensures
            o.backend_spec() == Backend::F4,
            o.budget_spec().is_unlimited(),
            o.threads_spec() is None,
    {
        ComputeOptions { backend: Backend::F4, budget: Budget::new(), threads: None }
    }

    /// Pick the backend.
    pub fn backend(self, backend: Backend) -> (o: ComputeOptions)
        ensures
            o.backend_spec() == backend,
            o.budget_spec() == self.budget_spec(),
            o.threads_spec() == self.threads_spec(),
    {
        ComputeOptions { backend, ..self }
    }

    /// Stop the computation after this much time.
    pub fn timeout(self, timeout: Duration) -> (o: ComputeOptions)
        ensures
            o.backend_spec() == self.backend_spec(),
            o.budget_spec().timeout_spec() == Some(timeout),
            o.budget_spec().memory_limit_spec() == self.budget_spec().memory_limit_spec(),
            o.budget_spec().cancellation_spec() == self.budget_spec().cancellation_spec(),
            o.threads_spec() == self.threads_spec(),
    {
        let ComputeOptions { backend, budget, threads } = self;
        ComputeOptions { backend, budget: budget.timeout(timeout), threads }
    }

    /// Stop the computation once the live engine data passes this many
    /// bytes.
    pub fn memory_limit(self, bytes: usize) -> (o: ComputeOptions)
        ensures
            o.backend_spec() == self.backend_spec(),
            o.budget_spec().timeout_spec() == self.budget_spec().timeout_spec(),
            o.budget_spec().memory_limit_spec() == Some(bytes),
            o.budget_spec().cancellation_spec() == self.budget_spec().cancellation_spec(),
            o.threads_spec() == self.threads_spec(),
    {
        let ComputeOptions { backend, budget, threads } = self;
        ComputeOptions { backend, budget: budget.memory_limit(bytes), threads }
    }

    /// Take the deadline, memory limit, and cancellation token from one
    /// budget, overwriting what the two shortcuts wrote.
    pub fn budget(self, budget: Budget) -> (o: ComputeOptions)
        ensures
            o.backend_spec() == self.backend_spec(),
            o.budget_spec() == budget,
            o.threads_spec() == self.threads_spec(),
    {
        ComputeOptions { budget, ..self }
    }

    /// Compute on this many threads. A count of 0 means the default pool.
    pub fn threads(self, threads: usize) -> (o: ComputeOptions)
        ensures
            o.backend_spec() == self.backend_spec(),
            o.budget_spec() == self.budget_spec(),
            o.threads_spec() == (if threads > 0 {
                Some(threads)
            } else {
                None::<usize>
            }),
    {
        let count = if threads > 0 {
            Some(threads)
        } else {
            None
        };
        ComputeOptions { threads: count, ..self }
    }
}

/// When the multimodular rational engine stops.
///
/// `extra` counts further primes; a rule that observes zero further primes
/// observes nothing, so the constructors in this crate never write zero.
#[derive(Clone, Copy, Debug, PartialEq, Eq, Structural)]
pub enum RationalStop {
    /// Stop when `extra` further primes leave the lifted basis unchanged.
    Unchanged {
        /// The number of further primes that must leave the lift unchanged.
        extra: usize,
    },
    /// Stop as `Unchanged` does, and then check the basis over `Q`.
    ContainsInput {
        /// The number of further primes that must leave the lift unchanged.
        extra: usize,
    },
}

impl Default for RationalStop {
    fn default() -> (s: RationalStop)
        ensures
            s == (RationalStop::Unchanged { extra: 2 }),
    {
        RationalStop::Unchanged { extra: 2 }
    }
}

/// The options of one computation over `Q`.
#[derive(Clone, Debug, PartialEq, Eq)]
pub struct RationalOptions {
    compute: ComputeOptions,
    stop: RationalStop,
}

impl Default for RationalOptions {
    fn default() -> (o: RationalOptions)
        ensures
            o.compute_spec().backend_spec() == Backend::F4,
            o.compute_spec().budget_spec().is_unlimited(),
            o.compute_spec().threads_spec() is None,
            o.stop_spec() == (RationalStop::Unchanged { extra: 2 }),
    {
        RationalOptions { compute: ComputeOptions::new(), stop: RationalStop::Unchanged { extra: 2 } }
    }
}

impl RationalOptions {
    pub closed spec fn compute_spec(&self) -> ComputeOptions {
        self.compute
    }

    pub closed spec fn stop_spec(&self) -> RationalStop {
        self.stop
    }

    /// The default options and `RationalStop::Unchanged` with `extra` 2.
    pub fn new() -> (o: RationalOptions)
        ensures
            o.compute_spec().backend_spec() == Backend::F4,
            o.compute_spec().budget_spec().is_unlimited(),
            o.compute_spec().threads_spec() is None,
            o.stop_spec() == (RationalStop::Unchanged { extra: 2 }),
    {
        RationalOptions { compute: ComputeOptions::new(), stop: RationalStop::Unchanged { extra: 2 } }
    }

    /// Take the backend, the budget, and the thread count from `options`.
    pub fn compute(self, options: ComputeOptions) -> (o: RationalOptions)
        ensures
            o.compute_spec() == options,
            o.stop_spec() == self.stop_spec(),
    {
        RationalOptions { compute: options, ..self }
    }

    /// Pick the stopping rule.
    pub fn stop(self, stop: RationalStop) -> (o: RationalOptions)
        ensures
            o.compute_spec() == self.compute_spec(),
            o.stop_spec() == stop,
    {
        RationalOptions { stop, ..self }
    }
}

/// The counts one F4 run reported.
#[derive(Clone, Copy, Debug, PartialEq, Eq, Default)]
pub struct F4Counters {
    /// The batches the run reduced, the final interreduction included.
    pub batches: u64,
    /// The rows of every batch.
    pub matrix_rows: u64,
    /// The columns of every batch.
    pub matrix_columns: u64,
    /// The nonzero entries of every batch, before reduction.
    pub matrix_nonzeros: u64,
    /// The rows that reduced to zero.
    pub zero_rows: u64,
    /// The pivots the reduction installed.
    pub new_pivots: u64,
    /// The times the run started again at a wider exponent packing.
    pub lane_restarts: u32,
    /// The batches the run built again with half the pairs.
    pub batch_retries: u64,
    /// The monomials the basis holds at the end of the run.
    pub basis_monomials: usize,
    /// The candidate critical pairs the run formed.
    pub pairs_generated: u64,
    /// The candidates dropped because the two leading monomials are coprime.
    pub pairs_discarded_product: u64,
    /// The queued pairs deleted by criterion B.
    pub pairs_discarded_b: u64,
    /// The candidates dropped by criterion M.
    pub pairs_discarded_m: u64,
    /// The candidates dropped by criterion F.
    pub pairs_discarded_f: u64,
}

/// What one computation did, next to the basis it produced.
#[derive(Clone, Copy, Debug, PartialEq, Eq)]
pub struct ComputeReport {
    /// The backend that ran.
    pub backend: Backend,
    /// What the F4 run counted, or `None` under the classic backend.
    pub counters: Option<F4Counters>,
    /// The wall time of the engine call.
    pub elapsed: Duration,
    /// The number of threads the run had.
    pub threads_used: usize,
    /// The largest number of prime runs the driver started at once, or
    /// `None` over a prime field.
    pub modular_concurrency: Option<usize>,
}

/// The largest value one exponent holds.
pub const DEGREE_LIMIT: u32 = 65535;

/// Why a computation stops before it has a basis.
#[derive(Clone, Copy, Debug, PartialEq, Eq, Structural)]
pub enum ComputeError {
    /// The deadline passed.
    Timeout,
    /// The live engine data passed the memory limit.
    MemoryLimitExceeded,
    /// A critical pair reached a least common multiple of total degree
    /// above `limit`.
    DegreeLimit {
        /// The largest total degree a critical pair may reach.
        limit: u32,
    },
    /// A monomial the run needs holds an exponent above `limit`.
    ExponentLimit {
        /// The largest value one exponent holds.
        limit: u32,
    },
    /// An F4 monomial table reached the largest number of monomials it
    /// holds.
    TableFull,
    /// The multimodular rational engine ran out of primes.
    PrimesExhausted,
}

/// The message an error reads as.
pub open spec fn message_text(e: ComputeError) -> Seq<char> {
    match e {
        ComputeError::Timeout => "the computation passed its deadline"@,
        ComputeError::MemoryLimitExceeded => "the computation passed its memory limit"@,
        ComputeError::DegreeLimit { .. } =>
            "a critical pair reached a total degree above 65535, which an exponent's width does not support"@,
        ComputeError::ExponentLimit { .. } =>
            "a monomial reached an exponent above 65535, which is the largest one exponent holds"@,
        ComputeError::TableFull => "a monomial table reached the largest number of monomials it holds"@,
        ComputeError::PrimesExhausted => "the rational computation ran out of primes"@,
    }
}

impl ComputeError {
    /// The message the error reads as.
    pub fn message(&self) -> (s: String)
        ensures
            s@ == message_text(*self),
    {
        match self {
            ComputeError::Timeout => "the computation passed its deadline".to_string(),
            ComputeError::MemoryLimitExceeded => "the computation passed its memory limit".to_string(),
            ComputeError::DegreeLimit { .. } => {
                "a critical pair reached a total degree above 65535, which an exponent's width does not support".to_string()
            },
            ComputeError::ExponentLimit { .. } => {
                "a monomial reached an exponent above 65535, which is the largest one exponent holds".to_string()
            },
            ComputeError::TableFull => {
                "a monomial table reached the largest number of monomials it holds".to_string()
            },
            ComputeError::PrimesExhausted => "the rational computation ran out of primes".to_string(),
        }
    }
}

/// Why one run stops, including the cancellation the public errors do not
/// name.
#[derive(Clone, Copy, Debug, PartialEq, Eq, Structural)]
pub enum RunError {
    /// The run stopped for a reason the public error names.
    Compute(ComputeError),
    /// The cancellation flag of the run was set.
    Cancelled,
}

/// The public report of a stopped run: a cancelled run reports a timeout.
pub open spec fn reported_error(stop: RunError) -> ComputeError {
    match stop {
        RunError::Compute(error) => error,
        RunError::Cancelled => ComputeError::Timeout,
    }
}

impl RunError {
    /// The public report of a stopped run: a cancelled run reports a
    /// timeout.
    pub fn reported(self) -> (e: ComputeError)
        ensures
            e == reported_error(self),
    {
        match self {
            RunError::Compute(error) => error,
            RunError::Cancelled => ComputeError::Timeout,
        }
    }
}

/// The number of items one loop takes between two reads of the clock.
pub const TICK: usize = 64;

/// The absolute limits of one call: the deadline, the memory limit, the
/// thread count, and the cancellation flags.
#[derive(Clone, Debug)]
pub struct ComputeLimits {
    /// The instant the call stops at, or `None` for no deadline.
    pub deadline: Option<Instant>,
    /// The bytes the call may hold, or `None` for no limit.
    pub memory: Option<usize>,
    /// The thread count the caller asked for.
    pub threads: Option<usize>,
    /// The flag that stops the call where its deadline is read.
    pub cancel: Option<Arc<AtomicBool>>,
    /// The caller's flag when `cancel` belongs to a modular wave.
    pub external_cancel: Option<Arc<AtomicBool>>,
}

impl Default for ComputeLimits {
    fn default() -> (l: ComputeLimits)
        ensures
            l.is_open(),
            l.memory is None,
            l.threads is None,
    {
        ComputeLimits::none()
    }
}

impl ComputeLimits {
    /// No deadline and no cancellation flag: nothing but the memory limit
    /// can stop the call.
    pub open spec fn is_open(&self) -> bool {
        &&& self.deadline is None
        &&& self.cancel is None
        &&& self.external_cancel is None
    }

    /// What a stop report can say of these limits.
    pub open spec fn stop_allowed(&self, stop: RunError) -> bool {
        match stop {
            RunError::Cancelled => self.cancel is Some || self.external_cancel is Some,
            RunError::Compute(error) => error == ComputeError::Timeout && self.deadline is Some,
        }
    }

    /// Limits that stop nothing.
    pub fn none() -> (l: ComputeLimits)
        ensures
            l.is_open(),
            l.memory is None,
            l.threads is None,
    {
        ComputeLimits { deadline: None, memory: None, threads: None, cancel: None, external_cancel: None }
    }

    /// The limits `options` names, with the deadline and cancellation flag
    /// taken now.
    pub fn of(options: &ComputeOptions) -> (l: ComputeLimits)
        ensures
            l.memory == options.budget_spec().memory_limit_spec(),
            l.threads == options.threads_spec(),
            options.budget_spec().timeout_spec() is None ==> l.deadline is None,
            (l.cancel is None) == (options.budget_spec().cancellation_spec() is None),
            l.external_cancel is None,
    {
        let base = ComputeLimits::of_budget(&options.budget);
        ComputeLimits { threads: options.threads, ..base }
    }

    /// The limits `budget` names, with the deadline and cancellation flag
    /// taken now, and the thread count of the global pool.
    pub fn of_budget(budget: &Budget) -> (l: ComputeLimits)
        ensures
            l.memory == budget.memory_limit_spec(),
            l.threads is None,
            budget.timeout_spec() is None ==> l.deadline is None,
            (l.cancel is None) == (budget.cancellation_spec() is None),
            l.external_cancel is None,
    {
        let cancel = match &budget.cancellation {
            Some(token) => Some(token.shared_flag()),
            None => None,
        };
        ComputeLimits {
            deadline: budget.deadline(),
            memory: budget.memory_limit,
            threads: None,
            cancel,
            external_cancel: None,
        }
    }

    /// Report why the call stops now, or `None` to carry on.
    ///
    /// Cancellation flags are read before the clock.
    pub fn stop(&self) -> (r: Option<RunError>)
        ensures
            self.is_open() ==> r is None,
            r matches Some(stop) ==> self.stop_allowed(stop),
    {
        let cancelled = match &self.cancel {
            Some(flag) => flag_is_set(flag),
            None => false,
        };
        let external = match &self.external_cancel {
            Some(flag) => flag_is_set(flag),
            None => false,
        };
        if cancelled || external {
            return Some(RunError::Cancelled);
        }
        match self.deadline {
            Some(at) => {
                if reached(Instant::now(), at) {
                    Some(RunError::Compute(ComputeError::Timeout))
                } else {
                    None
                }
            },
            None => None,
        }
    }

    /// Report why the call stops now, reading the clock once every
    /// [`TICK`] items.
    pub fn stop_every(&self, index: usize) -> (r: Option<RunError>)
        ensures
            index % TICK != 0 ==> r is None,
            self.is_open() ==> r is None,
            r matches Some(stop) ==> self.stop_allowed(stop),
    {
        if index % TICK != 0 {
            return None;
        }
        self.stop()
    }
}


/// Every nonzero generator has a leading monomial of total degree at most
/// [`DEGREE_LIMIT`]; under grevlex that is the degree of the polynomial.
pub open spec fn degrees_fit(generators: Seq<Polynomial>) -> bool {
    forall|k: int|
        0 <= k < generators.len() && (#[trigger] generators[k])@.len() > 0 ==> degree_of(generators[k]@.last().1)
            <= DEGREE_LIMIT
}

/// Refuse generators of degree above [`DEGREE_LIMIT`]: the classic engine
/// builds no monomial past the degree of an input term or of a pair's
/// least common multiple, and it checks the latter where it builds one.
pub fn check_input_degrees(generators: &[Polynomial]) -> (r: Result<(), RunError>)
    ensures
        r is Ok <==> degrees_fit(generators@),
        r matches Err(e) ==> e == RunError::Compute(ComputeError::DegreeLimit { limit: DEGREE_LIMIT }),
{
    let mut k: usize = 0;
    while k < generators.len()
        invariant
            k <= generators@.len(),
            forall|j: int|
                0 <= j < k && (#[trigger] generators@[j])@.len() > 0 ==> degree_of(generators@[j]@.last().1)
                    <= DEGREE_LIMIT,
        decreases generators@.len() - k,
    {
        match generators[k].lm() {
            Some(lead) => {
                if lead.total_degree() > 65535u128 {
                    return Err(RunError::Compute(ComputeError::DegreeLimit { limit: DEGREE_LIMIT }));
                }
            },
            None => {},
        }
        k += 1;
    }
    Ok(())
}


/// A default cap of the verifier, raised to the certificate length where
/// it sits below it.
pub open spec fn raised_cap(default: usize, len: usize) -> usize {
    if default < len {
        len
    } else {
        default
    }
}

/// `x`, or one where `x` is zero.
pub open spec fn at_least_one(x: int) -> int {
    if x < 1 {
        1
    } else {
        x
    }
}

/// What the memory limit leaves once `held` is paid for.
pub open spec fn spare_bytes(limit: usize, held: usize) -> int {
    if held < limit {
        limit - held
    } else {
        0
    }
}

/// The bytes of one verifier term with its exponents.
pub open spec fn term_record_bytes(sizes: RecordSizes, nvars: usize) -> int {
    sizes.term + nvars * sizes.exp
}

/// The flag a verification of this run reads: the caller's own where a
/// wave holds another, else the run's.
pub open spec fn verifier_flag(limits: ComputeLimits) -> Option<Arc<AtomicBool>> {
    if limits.external_cancel is Some {
        limits.external_cancel
    } else {
        limits.cancel
    }
}

/// Map the budget of a run to the caps of one verification.
///
/// `certificate_len` is the length of the certificate bytes and `held` what
/// the emitter's budget holds after charging them. `defaults` are the
/// verifier's own caps and `sizes` the bytes its records take.
///
/// Without a memory limit each cap is its default, raised to the length of
/// the certificate: one term of these bytes costs at least one byte, so the
/// length bounds every count a cap names. With one, what the limit leaves
/// once `held` is paid for pays for the decoded certificate and the
/// results of the identity checks; a check holds the certificate and at
/// most two results at once, so each term cap gets a third of it. The
/// work cap stays open on both paths: the deadline bounds the time.
pub fn verifier_limits(
    certificate_len: usize,
    held: usize,
    nvars: usize,
    limits: &ComputeLimits,
    defaults: &VerifyLimits,
    sizes: RecordSizes,
) -> (v: VerifyLimits)
    requires
        certificate_len <= held,
        sizes.term > 0,
        sizes.poly > 0,
        term_record_bytes(sizes, nvars) <= usize::MAX,
    ensures
        v.deadline == limits.deadline,
        v.cancellation == verifier_flag(*limits),
        v.max_work_units == u64::MAX,
        limits.memory is None ==> {
            &&& v.max_bytes == raised_cap(defaults.max_bytes, certificate_len)
            &&& v.max_polys == raised_cap(defaults.max_polys, certificate_len)
            &&& v.max_terms_per_poly == raised_cap(defaults.max_terms_per_poly, certificate_len)
            &&& v.max_total_terms == raised_cap(defaults.max_total_terms, certificate_len)
            &&& v.max_entries == raised_cap(defaults.max_entries, certificate_len)
            &&& v.max_intermediate_bytes == raised_cap(defaults.max_intermediate_bytes, certificate_len)
            &&& v.max_pool_monomials == raised_cap(defaults.max_pool_monomials, certificate_len)
            &&& v.max_pool_entries == raised_cap(defaults.max_pool_entries, certificate_len)
            &&& v.max_input_polys == raised_cap(defaults.max_input_polys, certificate_len)
            &&& v.max_nodes == raised_cap(defaults.max_nodes, certificate_len)
            &&& v.max_comb_steps == raised_cap(defaults.max_comb_steps, certificate_len)
            &&& v.max_trace_steps == raised_cap(defaults.max_trace_steps, certificate_len)
            &&& v.max_basis == raised_cap(defaults.max_basis, certificate_len)
            &&& v.max_pairs == raised_cap(defaults.max_pairs, certificate_len)
            &&& v.max_division_steps == raised_cap(defaults.max_division_steps, certificate_len)
            &&& v.max_total_division_steps == raised_cap(defaults.max_total_division_steps, certificate_len)
            &&& v.max_live_bytes == raised_cap(defaults.max_live_bytes, certificate_len)
        },
        limits.memory matches Some(limit) ==> {
            let left = spare_bytes(limit, held) / 3;
            let term_bytes = term_record_bytes(sizes, nvars);
            let terms = at_least_one(left / term_bytes);
            let polys = at_least_one(left / sizes.poly as int);
            let slots = at_least_one(left / 64);
            let room = if left < term_bytes { term_bytes } else { left };
            &&& v.max_bytes == spare_bytes(limit, held) + certificate_len
            &&& v.max_polys == polys
            &&& v.max_terms_per_poly == terms
            &&& v.max_total_terms == terms
            &&& v.max_entries == polys
            &&& v.max_intermediate_bytes == room
            &&& v.max_pool_monomials == slots
            &&& v.max_pool_entries == slots
            &&& v.max_input_polys == polys
            &&& v.max_nodes == slots
            &&& v.max_comb_steps == slots
            &&& v.max_trace_steps == slots
            &&& v.max_basis == polys
            &&& v.max_pairs == slots
            &&& v.max_division_steps == slots
            &&& v.max_total_division_steps == slots
            &&& v.max_live_bytes == room
        },
{
    let deadline = limits.deadline;
    let cancellation = match &limits.external_cancel {
        Some(flag) => Some(share_flag(flag)),
        None => match &limits.cancel {
            Some(flag) => Some(share_flag(flag)),
            None => None,
        },
    };
    let limit = match limits.memory {
        None => {
            let len = certificate_len;
            return VerifyLimits {
                max_bytes: raise(defaults.max_bytes, len),
                max_polys: raise(defaults.max_polys, len),
                max_terms_per_poly: raise(defaults.max_terms_per_poly, len),
                max_total_terms: raise(defaults.max_total_terms, len),
                max_entries: raise(defaults.max_entries, len),
                max_intermediate_bytes: raise(defaults.max_intermediate_bytes, len),
                max_pool_monomials: raise(defaults.max_pool_monomials, len),
                max_pool_entries: raise(defaults.max_pool_entries, len),
                max_input_polys: raise(defaults.max_input_polys, len),
                max_nodes: raise(defaults.max_nodes, len),
                max_comb_steps: raise(defaults.max_comb_steps, len),
                max_trace_steps: raise(defaults.max_trace_steps, len),
                max_basis: raise(defaults.max_basis, len),
                max_pairs: raise(defaults.max_pairs, len),
                max_division_steps: raise(defaults.max_division_steps, len),
                max_total_division_steps: raise(defaults.max_total_division_steps, len),
                max_live_bytes: raise(defaults.max_live_bytes, len),
                max_work_units: u64::MAX,
                deadline,
                cancellation,
            };
        },
        Some(limit) => limit,
    };
    let spare = if held < limit {
        limit - held
    } else {
        0
    };
    let left = spare / 3;
    let term_bytes = sizes.term + nvars * sizes.exp;
    let terms = raise(left / term_bytes, 1);
    let polys = raise(left / sizes.poly, 1);
    let slots = raise(left / 64, 1);
    let room = raise(left, term_bytes);
    VerifyLimits {
        max_bytes: spare + certificate_len,
        max_polys: polys,
        max_terms_per_poly: terms,
        max_total_terms: terms,
        max_entries: polys,
        max_intermediate_bytes: room,
        max_pool_monomials: slots,
        max_pool_entries: slots,
        max_input_polys: polys,
        max_nodes: slots,
        max_comb_steps: slots,
        max_trace_steps: slots,
        max_basis: polys,
        max_pairs: slots,
        max_division_steps: slots,
        max_total_division_steps: slots,
        max_live_bytes: room,
        max_work_units: u64::MAX,
        deadline,
        cancellation,
    }
}

/// The larger of `value` and `floor`.
fn raise(value: usize, floor: usize) -> (r: usize)
    ensures
        r == raised_cap(value, floor),
{
    if value < floor {
        floor
    } else {
        value
    }
}

} // verus!
