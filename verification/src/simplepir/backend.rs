//! Row-KOPIR (SimplePIR) server, client, and hint.
//!
//! The logical database `D` is `R × C` (`R` = response dimension, `C` =
//! query dimension). It is stored transposed as `tdb`, a `C × R` row-major
//! `u32` buffer (`tdb[c·R + r] = D[r][c]`, each cell in `[0, p)`), so the
//! answer `ans = D·qu` is one left-multiply through the matvec kernel. The
//! public matrix `A ∈ Z_q^{C×N}` is re-expanded from the seed in its
//! transposed `N × C` form and never stored or shipped.
use vstd::prelude::*;
use rand::rngs::StdRng;
use crate::simplepir::arith::{
    q_modulus, round_q_to_p, round_spec, lemma_wrapping_add_mod, lemma_wrapping_sub_mod,
    lemma_round_tolerates_noise, lemma_delta_times_modulus,
};
use crate::simplepir::matvec::{
    matvec_accumulate, matvec_spec, column_dot, zeros, lemma_column_dot_is_sum, lemma_cell_in_bounds,
};
use crate::simplepir::params::{SimpleParams, delta_spec, modulus_spec};
use crate::simplepir::sampler::{sample_a_transposed, sample_uniform_zq_into, a_transposed_spec, std_rng_words, std_rng_after};
use crate::simplepir::sums::{sum, lemma_sum_add, lemma_sum_ext, lemma_sum_congruent, lemma_sum_single, lemma_sum_swap, lemma_sum_scale};

verus! {

/// `hint` is the setup hint of `tdb` under `Aᵀ = a_t`: row `k` of the
/// `N × R` layout is `(Aᵀ)_k · D`, i.e. `hint[k·R + r] = (D·A)[r][k]`.
pub open spec fn is_hint_of(hint: Seq<u32>, tdb: Seq<u32>, a_t: Seq<u32>, rows: nat, cols: nat, n: nat) -> bool {
    &&& hint.len() == n * rows
    &&& forall|k: int, r: int|
        0 <= k < n && 0 <= r < rows ==> #[trigger] hint[k * rows + r] == matvec_spec(
            zeros(rows),
            tdb,
            a_t.subrange(k * cols, k * cols + cols),
        )[r]
}

/// The two's-complement reading of a `u32` error cell.
pub open spec fn signed(x: u32) -> int {
    if x < 0x8000_0000 {
        x as int
    } else {
        x as int - 0x1_0000_0000
    }
}

/// The answer noise in response cell `r`: `Σ_c e[c] · D[r][c]` over the
/// integers, with `e` read as signed values.
pub open spec fn answer_noise(tdb: Seq<u32>, e: Seq<u32>, rows: nat, r: int) -> int {
    sum(|c: int| signed(e[c]) * tdb[c * rows + r] as int, e.len() as int)
}

/// The query `qu = a_s + e + Δ·u_col (mod q)`.
pub open spec fn query_spec(a_s: Seq<u32>, e: Seq<u32>, col: int, delta: nat) -> Seq<u32> {
    Seq::new(
        a_s.len(),
        |c: int| ((a_s[c] as int + e[c] as int + if c == col { delta as int } else { 0 }) % (q_modulus() as int)) as u32,
    )
}

/// The recovered cells `Round_Δ(ans − h_s)`.
pub open spec fn recover_spec(ans: Seq<u32>, h_s: Seq<u32>, plaintext_bits: u32) -> Seq<u32> {
    Seq::new(
        ans.len(),
        |i: int| round_spec(vstd::wrapping::u32_specs::wrapping_sub(ans[i], h_s[i]), plaintext_bits) as u32,
    )
}

/// Column `col` of `D`, i.e. row `col` of the stored `C × R` buffer.
pub open spec fn column_spec(tdb: Seq<u32>, rows: nat, col: int) -> Seq<u32> {
    tdb.subrange(col * rows, col * rows + rows)
}

/// The setup hint `hint = D · A ∈ Z_q^{R×N}`, downloaded once by the client.
/// Stored transposed (`N × R`, row-major) so `hint·s` is a left-multiply.
#[derive(Clone, Debug)]
pub struct Hint {
    hint_t: Vec<u32>,
    rows: usize,
    cols: usize,
    lwe_dim: usize,
    seed: [u8; 16],
}

impl Hint {
    /// The cells of the transposed hint (`N × R`, row-major).
    pub closed spec fn cells(self) -> Seq<u32> {
        self.hint_t@
    }

    /// Response dimension `R`.
    pub closed spec fn response_len(self) -> nat {
        self.rows as nat
    }

    /// Query dimension `C`.
    pub closed spec fn query_len(self) -> nat {
        self.cols as nat
    }

    /// LWE dimension `N`.
    pub closed spec fn dim(self) -> nat {
        self.lwe_dim as nat
    }

    /// The public seed that expands `A`.
    pub closed spec fn public_seed(self) -> Seq<u8> {
        self.seed@
    }

    /// The shape every hint built by [`SimplePirServer::setup`] has.
    pub open spec fn wf(self) -> bool {
        &&& self.cells().len() == self.dim() * self.response_len()
        &&& self.query_len() <= u32::MAX
        &&& self.dim() <= u32::MAX
        &&& self.query_len() * self.dim() <= usize::MAX
    }

    /// Response dimension `R`.
    pub fn rows(&self) -> (r: usize)
        ensures
            r == self.response_len(),
    {
        self.rows
    }

    /// Query dimension `C`.
    pub fn cols(&self) -> (c: usize)
        ensures
            c == self.query_len(),
    {
        self.cols
    }

    /// On-wire size in bytes: `R·N` fixed-width `u32` cells (the public
    /// matrix `A` is regenerated from the seed, so it is not counted).
    pub fn wire_byte_size(&self) -> (b: usize)
        requires
            self.wf(),
            self.dim() * self.response_len() * 4 <= usize::MAX,
        ensures
            b == self.dim() * self.response_len() * 4,
    {
        self.hint_t.len() * 4
    }
}

/// Row-KOPIR (SimplePIR) server: owns the transposed database.
pub struct SimplePirServer {
    tdb: Vec<u32>,
    rows: usize,
    cols: usize,
    params: SimpleParams,
}

impl SimplePirServer {
    /// The stored `C × R` buffer (`tdb[c·R + r] = D[r][c]`).
    pub closed spec fn database(self) -> Seq<u32> {
        self.tdb@
    }

    /// Response dimension `R`.
    pub closed spec fn response_len(self) -> nat {
        self.rows as nat
    }

    /// Query dimension `C`.
    pub closed spec fn query_len(self) -> nat {
        self.cols as nat
    }

    /// The LWE parameters.
    pub closed spec fn lwe_params(self) -> SimpleParams {
        self.params
    }

    /// The shape every server has.
    pub open spec fn wf(self) -> bool {
        &&& self.database().len() == self.response_len() * self.query_len()
        &&& self.lwe_params().wf()
    }

    /// Build a server from a database already stored transposed
    /// (`tdb[c·rows + r] = D[r][c]`).
    ///
    /// The caller picks `params.plaintext_bits` so that the answer decodes
    /// (the SimplePIR noise bound over `cols` summed cells); the cells of
    /// `tdb` are meant to lie in `[0, p)`.
    pub fn from_transposed_db(tdb: Vec<u32>, rows: usize, cols: usize, params: SimpleParams) -> (s: Self)
        requires
            tdb@.len() == rows * cols,
            params.wf(),
        ensures
            s.wf(),
            s.database() == tdb@,
            s.response_len() == rows,
            s.query_len() == cols,
            s.lwe_params() == params,
    {
        SimplePirServer { tdb, rows, cols, params }
    }

    /// Response dimension `R`.
    pub fn rows(&self) -> (r: usize)
        ensures
            r == self.response_len(),
    {
        self.rows
    }

    /// Query dimension `C`.
    pub fn cols(&self) -> (c: usize)
        ensures
            c == self.query_len(),
    {
        self.cols
    }

    /// The LWE parameters this server was built with.
    pub fn params(&self) -> (p: &SimpleParams)
        ensures
            *p == self.lwe_params(),
    {
        &self.params
    }

    /// Compute the setup hint `hint = D·A ∈ Z_q^{R×N}` (returned transposed).
    pub fn setup(&self) -> (h: Hint)
        requires
            self.wf(),
            self.query_len() <= u32::MAX,
            self.query_len() * self.lwe_params().lwe_dim <= usize::MAX,
            self.lwe_params().lwe_dim * self.response_len() <= usize::MAX,
        ensures
            h.wf(),
            is_hint_of(
                h.cells(),
                self.database(),
                a_transposed_spec(self.lwe_params().seed@, self.query_len(), self.lwe_params().lwe_dim as nat),
                self.response_len(),
                self.query_len(),
                self.lwe_params().lwe_dim as nat,
            ),
            h.response_len() == self.response_len(),
            h.query_len() == self.query_len(),
            h.dim() == self.lwe_params().lwe_dim,
            h.public_seed() == self.lwe_params().seed@,
    {
        let n = self.params.lwe_dim as usize;
        let cols = self.cols;
        let rows = self.rows;
        let a_nc = sample_a_transposed(&self.params.seed, cols as u32, self.params.lwe_dim);
        let ghost a_t = a_nc@;
        let mut hint_t: Vec<u32> = Vec::new();
        let mut k: usize = 0;
        while k < n
            invariant
                n == self.params.lwe_dim,
                cols == self.cols,
                rows == self.rows,
                a_nc@ == a_t,
                a_t.len() == cols * n,
                self.tdb@.len() == rows * cols,
                n * rows <= usize::MAX,
                cols * n <= usize::MAX,
                k <= n,
                hint_t@.len() == k * rows,
                forall|kk: int, r: int|
                    0 <= kk < k && 0 <= r < rows ==> #[trigger] hint_t@[kk * rows + r] == matvec_spec(
                        zeros(rows as nat),
                        self.tdb@,
                        a_t.subrange(kk * cols, kk * cols + cols),
                    )[r],
            decreases n - k,
        {
            proof {
                assert((k + 1) * cols <= n * cols) by (nonlinear_arith)
                    requires k < n;
                assert(k * cols + cols == (k + 1) * cols) by (nonlinear_arith);
                assert(n * cols == cols * n) by (nonlinear_arith);
                assert((k + 1) * rows <= n * rows) by (nonlinear_arith)
                    requires k < n;
                assert(k * rows + rows == (k + 1) * rows) by (nonlinear_arith);
            }
            let a_col = vstd::slice::slice_subrange(a_nc.as_slice(), k * cols, k * cols + cols);
            let mut row: Vec<u32> = vec![0u32; rows];
            assert(row@ =~= zeros(rows as nat));
            assert(self.tdb@.len() == a_col@.len() * row@.len()) by (nonlinear_arith)
                requires self.tdb@.len() == rows * cols, a_col@.len() == cols, row@.len() == rows;
            matvec_accumulate(&mut row, self.tdb.as_slice(), a_col);
            let ghost old_hint = hint_t@;
            hint_t.append(&mut row);
            proof {
                assert forall|kk: int, r: int|
                    0 <= kk < k + 1 && 0 <= r < rows implies #[trigger] hint_t@[kk * rows + r] == matvec_spec(
                        zeros(rows as nat),
                        self.tdb@,
                        a_t.subrange(kk * cols, kk * cols + cols),
                    )[r] by {
                    if kk < k {
                        assert(kk * rows + r < k * rows) by (nonlinear_arith)
                            requires kk < k, r < rows;
                        assert(hint_t@[kk * rows + r] == old_hint[kk * rows + r]);
                    } else {
                        assert(hint_t@[kk * rows + r] == matvec_spec(zeros(rows as nat), self.tdb@, a_col@)[r]);
                    }
                }
            }
            k += 1;
        }
        Hint { hint_t, rows, cols, lwe_dim: n, seed: self.params.seed }
    }

    /// Answer a query: `ans = D · qu ∈ Z_q^R`.
    pub fn answer(&self, qu: &[u32]) -> (ans: Vec<u32>)
        requires
            self.wf(),
            qu@.len() == self.query_len(),
        ensures
            ans@ == matvec_spec(zeros(self.response_len()), self.database(), qu@),
    {
        let mut ans: Vec<u32> = vec![0u32; self.rows];
        assert(ans@ =~= zeros(self.rows as nat));
        proof {
            assert(self.tdb@.len() == qu@.len() * ans@.len()) by (nonlinear_arith)
                requires self.tdb@.len() == self.rows * self.cols, qu@.len() == self.cols, ans@.len() == self.rows;
        }
        matvec_accumulate(&mut ans, self.tdb.as_slice(), qu);
        ans
    }
}

/// Row-KOPIR (SimplePIR) client: holds the per-secret precompute
/// `a_s = A·s` and `h_s = hint·s`, enough to build queries and recover.
pub struct SimplePirClient {
    a_s: Vec<u32>,
    h_s: Vec<u32>,
    rows: usize,
    cols: usize,
    params: SimpleParams,
    secret: Ghost<Seq<u32>>,
}

impl SimplePirClient {
    /// `a_s = A·s`, the query base.
    pub closed spec fn query_base(self) -> Seq<u32> {
        self.a_s@
    }

    /// `h_s = hint·s`, the recover offset.
    pub closed spec fn recover_offset(self) -> Seq<u32> {
        self.h_s@
    }

    /// The LWE secret `s`.
    pub closed spec fn secret(self) -> Seq<u32> {
        self.secret@
    }

    /// Response dimension `R`.
    pub closed spec fn response_len(self) -> nat {
        self.rows as nat
    }

    /// Query dimension `C`.
    pub closed spec fn query_len(self) -> nat {
        self.cols as nat
    }

    /// The LWE parameters.
    pub closed spec fn lwe_params(self) -> SimpleParams {
        self.params
    }

    /// The shape every client has.
    pub open spec fn wf(self) -> bool {
        &&& self.query_base().len() == self.query_len()
        &&& self.recover_offset().len() == self.response_len()
        &&& self.lwe_params().wf()
    }

    /// Set up a client for the LWE secret `s` from a downloaded hint:
    /// `a_s = A·s` with `A` re-expanded from the hint's seed, `h_s = hint·s`.
    pub fn from_secret(hint: &Hint, params: SimpleParams, s: Vec<u32>) -> (c: Self)
        requires
            hint.wf(),
            hint.dim() == params.lwe_dim,
            params.wf(),
            s@.len() == params.lwe_dim,
        ensures
            c.wf(),
            c.secret() == s@,
            c.query_base() == matvec_spec(
                zeros(hint.query_len()),
                a_transposed_spec(hint.public_seed(), hint.query_len(), params.lwe_dim as nat),
                s@,
            ),
            c.recover_offset() == matvec_spec(zeros(hint.response_len()), hint.cells(), s@),
            c.response_len() == hint.response_len(),
            c.query_len() == hint.query_len(),
            c.lwe_params() == params,
    {
        let cols = hint.cols;
        let rows = hint.rows;
        let a_nc = sample_a_transposed(&hint.seed, cols as u32, params.lwe_dim);
        let mut a_s: Vec<u32> = vec![0u32; cols];
        assert(a_s@ =~= zeros(cols as nat));
        proof {
            assert(a_nc@.len() == s@.len() * a_s@.len()) by (nonlinear_arith)
                requires a_nc@.len() == cols * params.lwe_dim, s@.len() == params.lwe_dim, a_s@.len() == cols;
        }
        matvec_accumulate(&mut a_s, a_nc.as_slice(), s.as_slice());
        let mut h_s: Vec<u32> = vec![0u32; rows];
        assert(h_s@ =~= zeros(rows as nat));
        proof {
            assert(hint.hint_t@.len() == s@.len() * h_s@.len()) by (nonlinear_arith)
                requires hint.hint_t@.len() == hint.lwe_dim * rows, s@.len() == hint.lwe_dim, h_s@.len() == rows;
        }
        matvec_accumulate(&mut h_s, hint.hint_t.as_slice(), s.as_slice());
        SimplePirClient { a_s, h_s, rows, cols, params, secret: Ghost(s@) }
    }

    /// Set up a client for a fresh LWE secret `s ← Z_q^N` drawn from `rng`.
    /// One secret backs one query.
    pub fn new(hint: &Hint, params: SimpleParams, rng: &mut StdRng) -> (c: Self)
        requires
            hint.wf(),
            hint.dim() == params.lwe_dim,
            params.wf(),
        ensures
            c.wf(),
            c.secret() == std_rng_words(*old(rng), params.lwe_dim as nat),
            *final(rng) == std_rng_after(*old(rng), params.lwe_dim as nat),
            c.query_base() == matvec_spec(
                zeros(hint.query_len()),
                a_transposed_spec(hint.public_seed(), hint.query_len(), params.lwe_dim as nat),
                c.secret(),
            ),
            c.recover_offset() == matvec_spec(zeros(hint.response_len()), hint.cells(), c.secret()),
            c.response_len() == hint.response_len(),
            c.query_len() == hint.query_len(),
            c.lwe_params() == params,
    {
        let mut s: Vec<u32> = vec![0u32; params.lwe_dim as usize];
        sample_uniform_zq_into(rng, &mut s);
        Self::from_secret(hint, params, s)
    }

    /// Set up a client for the secret `s` next to a co-located server:
    /// `a_s = A·s`, and the recover offset computed as `D·(A·s)` through the
    /// server, which equals `hint·s` without materialising the hint.
    pub fn with_local_server_from_secret(server: &SimplePirServer, s: Vec<u32>) -> (c: Self)
        requires
            server.wf(),
            server.query_len() <= u32::MAX,
            server.query_len() * server.lwe_params().lwe_dim <= usize::MAX,
            s@.len() == server.lwe_params().lwe_dim,
        ensures
            c.wf(),
            c.secret() == s@,
            c.query_base() == matvec_spec(
                zeros(server.query_len()),
                a_transposed_spec(server.lwe_params().seed@, server.query_len(), server.lwe_params().lwe_dim as nat),
                s@,
            ),
            c.recover_offset() == matvec_spec(zeros(server.response_len()), server.database(), c.query_base()),
            c.response_len() == server.response_len(),
            c.query_len() == server.query_len(),
            c.lwe_params() == server.lwe_params(),
    {
        let params = server.params;
        let rows = server.rows;
        let cols = server.cols;
        let a_nc = sample_a_transposed(&params.seed, cols as u32, params.lwe_dim);
        let mut a_s: Vec<u32> = vec![0u32; cols];
        assert(a_s@ =~= zeros(cols as nat));
        proof {
            assert(a_nc@.len() == s@.len() * a_s@.len()) by (nonlinear_arith)
                requires a_nc@.len() == cols * params.lwe_dim, s@.len() == params.lwe_dim, a_s@.len() == cols;
        }
        matvec_accumulate(&mut a_s, a_nc.as_slice(), s.as_slice());
        let h_s = server.answer(a_s.as_slice());
        SimplePirClient { a_s, h_s, rows, cols, params, secret: Ghost(s@) }
    }

    /// Fast client set-up for a co-located server with a fresh secret drawn
    /// from `rng` (see [`SimplePirClient::with_local_server_from_secret`]).
    pub fn with_local_server(server: &SimplePirServer, rng: &mut StdRng) -> (c: Self)
        requires
            server.wf(),
            server.query_len() <= u32::MAX,
            server.query_len() * server.lwe_params().lwe_dim <= usize::MAX,
        ensures
            c.wf(),
            c.secret() == std_rng_words(*old(rng), server.lwe_params().lwe_dim as nat),
            *final(rng) == std_rng_after(*old(rng), server.lwe_params().lwe_dim as nat),
            c.query_base() == matvec_spec(
                zeros(server.query_len()),
                a_transposed_spec(server.lwe_params().seed@, server.query_len(), server.lwe_params().lwe_dim as nat),
                c.secret(),
            ),
            c.recover_offset() == matvec_spec(zeros(server.response_len()), server.database(), c.query_base()),
            c.response_len() == server.response_len(),
            c.query_len() == server.query_len(),
            c.lwe_params() == server.lwe_params(),
    {
        let mut s: Vec<u32> = vec![0u32; server.params.lwe_dim as usize];
        sample_uniform_zq_into(rng, &mut s);
        Self::with_local_server_from_secret(server, s)
    }

    /// Query dimension `C` (query wire length in `u32`).
    pub fn cols(&self) -> (c: usize)
        ensures
            c == self.query_len(),
    {
        self.cols
    }

    /// Response dimension `R`.
    pub fn rows(&self) -> (r: usize)
        ensures
            r == self.response_len(),
    {
        self.rows
    }

    /// The query base `a_s = A·s`.
    pub fn query_base_cells(&self) -> (a: &Vec<u32>)
        ensures
            a@ == self.query_base(),
    {
        &self.a_s
    }

    /// The recover offset `h_s = hint·s`.
    pub fn recover_offset_cells(&self) -> (h: &Vec<u32>)
        ensures
            h@ == self.recover_offset(),
    {
        &self.h_s
    }

    /// Build a query selecting column `col` under the error vector `e`:
    /// `qu = a_s + e + Δ·u_col (mod q)`.
    pub fn query_with_noise(&self, col: usize, e: &[u32]) -> (qu: Vec<u32>)
        requires
            self.wf(),
            col < self.query_len(),
            e@.len() == self.query_len(),
        ensures
            qu@ == query_spec(self.query_base(), e@, col as int, delta_spec(self.lwe_params().plaintext_bits)),
    {
        let delta = self.params.delta();
        let mut qu: Vec<u32> = Vec::with_capacity(self.cols);
        let mut c: usize = 0;
        while c < self.cols
            invariant
                self.a_s@.len() == self.cols,
                e@.len() == self.cols,
                col < self.cols,
                delta == delta_spec(self.params.plaintext_bits),
                c <= self.cols,
                qu@.len() == c,
                forall|i: int| 0 <= i < c ==> #[trigger] qu@[i] == query_spec(self.a_s@, e@, col as int, delta as nat)[i],
            decreases self.cols - c,
        {
            let base = self.a_s[c].wrapping_add(e[c]);
            let v = if c == col { base.wrapping_add(delta) } else { base };
            proof {
                let m = q_modulus() as int;
                lemma_wrapping_add_mod(self.a_s@[c as int], e@[c as int]);
                if c == col {
                    lemma_wrapping_add_mod(base, delta);
                    vstd::arithmetic::div_mod::lemma_add_mod_noop(
                        self.a_s@[c as int] as int + e@[c as int] as int, delta as int, m);
                    vstd::arithmetic::div_mod::lemma_small_mod(delta as nat, m as nat);
                } else {
                    vstd::arithmetic::div_mod::lemma_mod_twice(
                        self.a_s@[c as int] as int + e@[c as int] as int, m);
                }
            }
            qu.push(v);
            c += 1;
        }
        assert(qu@ =~= query_spec(self.a_s@, e@, col as int, delta as nat));
        qu
    }

    /// Recover the selected column: `d = ans − h_s`, rounded cell-wise to its
    /// plaintext `Z_p` value.
    pub fn recover(&self, ans: &[u32]) -> (cells: Vec<u32>)
        requires
            self.wf(),
            ans@.len() == self.response_len(),
        ensures
            cells@ == recover_spec(ans@, self.recover_offset(), self.lwe_params().plaintext_bits),
            forall|i: int| 0 <= i < cells@.len() ==> #[trigger] cells@[i] < modulus_spec(self.lwe_params().plaintext_bits),
    {
        let mut out: Vec<u32> = Vec::with_capacity(self.rows);
        let mut i: usize = 0;
        while i < self.rows
            invariant
                self.h_s@.len() == self.rows,
                ans@.len() == self.rows,
                self.params.wf(),
                i <= self.rows,
                out@.len() == i,
                forall|t: int| 0 <= t < i ==> #[trigger] out@[t] == recover_spec(ans@, self.h_s@, self.params.plaintext_bits)[t],
                forall|t: int| 0 <= t < i ==> #[trigger] out@[t] < modulus_spec(self.params.plaintext_bits),
            decreases self.rows - i,
        {
            let m = round_q_to_p(ans[i].wrapping_sub(self.h_s[i]), &self.params);
            out.push(m);
            i += 1;
        }
        assert(out@ =~= recover_spec(ans@, self.h_s@, self.params.plaintext_bits));
        out
    }
}

/// Entry `j` of `0 + qᵀ·D` is the integer column sum reduced mod `q`.
pub proof fn lemma_matvec_zero_entry(d: Seq<u32>, q: Seq<u32>, w: nat, j: int)
    requires
        0 <= j < w,
    ensures
        matvec_spec(zeros(w), d, q)[j] as int
            == sum(|i: int| q[i] as int * d[i * w + j] as int, q.len() as int) % (q_modulus() as int),
{
    lemma_column_dot_is_sum(d, q, w as int, j, q.len() as int);
    vstd::arithmetic::div_mod::lemma_mod_bound(column_dot(d, q, w as int, j, q.len() as int), q_modulus() as int);
}

/// With the same secret `s`, the recover offset computed from the hint,
/// `hint·s`, equals the co-located offset `D·(A·s)`: a client built from a
/// downloaded hint and one built next to the server hold the same `a_s`
/// and `h_s`.
pub proof fn lemma_hint_offset_matches_local(
    tdb: Seq<u32>,
    a_t: Seq<u32>,
    hint: Seq<u32>,
    s: Seq<u32>,
    rows: nat,
    cols: nat,
)
    requires
        tdb.len() == cols * rows,
        a_t.len() == s.len() * cols,
        is_hint_of(hint, tdb, a_t, rows, cols, s.len()),
    ensures
        matvec_spec(zeros(rows), hint, s) == matvec_spec(zeros(rows), tdb, matvec_spec(zeros(cols), a_t, s)),
{
    let m = q_modulus() as int;
    let n = s.len() as int;
    let a_s = matvec_spec(zeros(cols), a_t, s);
    let lhs = matvec_spec(zeros(rows), hint, s);
    let rhs = matvec_spec(zeros(rows), tdb, a_s);
    assert forall|r: int| 0 <= r < rows implies #[trigger] lhs[r] == rhs[r] by {
        let f = |k: int, c: int| s[k] as int * a_t[k * cols + c] as int * tdb[c * rows + r] as int;
        let left_terms = |k: int| s[k] as int * hint[k * rows + r] as int;
        let left_exact = |k: int| sum(|c: int| f(k, c), cols as int);
        assert forall|k: int| 0 <= k < n implies #[trigger] left_terms(k) % m == left_exact(k) % m by {
            let a_row = a_t.subrange(k * cols, k * cols + cols);
            assert(k * cols + cols <= n * cols) by (nonlinear_arith)
                requires 0 <= k < n;
            assert(hint[k * rows + r] == matvec_spec(zeros(rows), tdb, a_row)[r]);
            lemma_matvec_zero_entry(tdb, a_row, rows, r);
            let g = |c: int| a_row[c] as int * tdb[c * rows + r] as int;
            let x = sum(g, cols as int);
            assert(hint[k * rows + r] as int == x % m);
            vstd::arithmetic::div_mod::lemma_mul_mod_noop_right(s[k] as int, x, m);
            lemma_sum_scale(g, s[k] as int, cols as int);
            let sg = |c: int| s[k] as int * g(c);
            let fk = |c: int| f(k, c);
            assert forall|c: int| 0 <= c < cols implies #[trigger] sg(c) == fk(c) by {
                vstd::arithmetic::mul::lemma_mul_is_associative(
                    s[k] as int, a_t[k * cols + c] as int, tdb[c * rows + r] as int);
            }
            lemma_sum_ext(sg, fk, cols as int);
        }
        lemma_sum_congruent(left_terms, left_exact, n, m);
        lemma_matvec_zero_entry(hint, s, rows, r);
        assert(lhs[r] as int == sum(left_terms, n) % m);

        let right_terms = |c: int| a_s[c] as int * tdb[c * rows + r] as int;
        let right_exact = |c: int| sum(|k: int| f(k, c), n);
        assert forall|c: int| 0 <= c < cols implies #[trigger] right_terms(c) % m == right_exact(c) % m by {
            lemma_matvec_zero_entry(a_t, s, cols, c);
            let g = |k: int| s[k] as int * a_t[k * cols + c] as int;
            let y = sum(g, n);
            assert(a_s[c] as int == y % m);
            vstd::arithmetic::div_mod::lemma_mul_mod_noop_left(y, tdb[c * rows + r] as int, m);
            lemma_sum_scale(g, tdb[c * rows + r] as int, n);
            vstd::arithmetic::mul::lemma_mul_is_commutative(y, tdb[c * rows + r] as int);
            let tg = |k: int| tdb[c * rows + r] as int * g(k);
            let fc = |k: int| f(k, c);
            assert forall|k: int| 0 <= k < n implies #[trigger] tg(k) == fc(k) by {
                vstd::arithmetic::mul::lemma_mul_is_commutative(
                    tdb[c * rows + r] as int, s[k] as int * a_t[k * cols + c] as int);
            }
            lemma_sum_ext(tg, fc, n);
        }
        lemma_sum_congruent(right_terms, right_exact, cols as int, m);
        lemma_matvec_zero_entry(tdb, a_s, rows, r);
        assert(rhs[r] as int == sum(right_terms, cols as int) % m);
        lemma_sum_swap(f, n, cols as int);
    }
    assert(lhs =~= rhs);
}

/// A client built from the server's hint and one built next to the server,
/// from generators in the same state, are the same client: they draw the
/// same secret, leave their generators in the same state, and hold the
/// same `a_s`, `h_s`, dimensions and parameters — so they build the same
/// queries and recover the same cells.
pub proof fn lemma_local_client_matches_hint_client(
    server: SimplePirServer,
    hint: Hint,
    full: SimplePirClient,
    fast: SimplePirClient,
    rng: StdRng,
)
    requires
        server.wf(),
        hint.wf(),
        is_hint_of(
            hint.cells(),
            server.database(),
            a_transposed_spec(server.lwe_params().seed@, server.query_len(), server.lwe_params().lwe_dim as nat),
            server.response_len(),
            server.query_len(),
            server.lwe_params().lwe_dim as nat,
        ),
        hint.response_len() == server.response_len(),
        hint.query_len() == server.query_len(),
        hint.dim() == server.lwe_params().lwe_dim,
        hint.public_seed() == server.lwe_params().seed@,
        full.secret() == std_rng_words(rng, server.lwe_params().lwe_dim as nat),
        full.query_base() == matvec_spec(
            zeros(hint.query_len()),
            a_transposed_spec(hint.public_seed(), hint.query_len(), server.lwe_params().lwe_dim as nat),
            full.secret(),
        ),
        full.recover_offset() == matvec_spec(zeros(hint.response_len()), hint.cells(), full.secret()),
        full.response_len() == hint.response_len(),
        full.query_len() == hint.query_len(),
        full.lwe_params() == server.lwe_params(),
        fast.secret() == std_rng_words(rng, server.lwe_params().lwe_dim as nat),
        fast.query_base() == matvec_spec(
            zeros(server.query_len()),
            a_transposed_spec(server.lwe_params().seed@, server.query_len(), server.lwe_params().lwe_dim as nat),
            fast.secret(),
        ),
        fast.recover_offset() == matvec_spec(zeros(server.response_len()), server.database(), fast.query_base()),
        fast.response_len() == server.response_len(),
        fast.query_len() == server.query_len(),
        fast.lwe_params() == server.lwe_params(),
    ensures
        full.secret() == fast.secret(),
        full.query_base() == fast.query_base(),
        full.recover_offset() == fast.recover_offset(),
        full.response_len() == fast.response_len(),
        full.query_len() == fast.query_len(),
        full.lwe_params() == fast.lwe_params(),
{
    let n = server.lwe_params().lwe_dim as nat;
    let s = full.secret();
    crate::simplepir::sampler::lemma_std_rng_words_len(rng, n);
    let a_t = a_transposed_spec(server.lwe_params().seed@, server.query_len(), n);
    assert(a_t.len() == s.len() * server.query_len()) by (nonlinear_arith)
        requires a_t.len() == server.query_len() * n, s.len() == n;
    assert(server.database().len() == server.query_len() * server.response_len()) by (nonlinear_arith)
        requires server.database().len() == server.response_len() * server.query_len();
    lemma_hint_offset_matches_local(server.database(), a_t, hint.cells(), s, server.response_len(), server.query_len());
}

/// Decode correctness: if the database cells lie in `[0, p)` and the error
/// `e` keeps every answer-noise term in `[−Δ/2, Δ/2)`, then recovering the
/// answer to the query for column `col` (with the matching offset
/// `h_s = D·a_s`) yields exactly column `col` of `D`.
pub proof fn lemma_recover_selects_column(
    tdb: Seq<u32>,
    rows: nat,
    a_s: Seq<u32>,
    e: Seq<u32>,
    col: int,
    plaintext_bits: u32,
)
    requires
        1 <= plaintext_bits <= 31,
        tdb.len() == a_s.len() * rows,
        e.len() == a_s.len(),
        0 <= col < a_s.len(),
        forall|i: int| 0 <= i < tdb.len() ==> #[trigger] tdb[i] < modulus_spec(plaintext_bits),
        forall|r: int| 0 <= r < rows ==> -(vstd::arithmetic::power2::pow2((31 - plaintext_bits) as nat) as int)
            <= #[trigger] answer_noise(tdb, e, rows, r)
            < vstd::arithmetic::power2::pow2((31 - plaintext_bits) as nat),
    ensures
        recover_spec(
            matvec_spec(zeros(rows), tdb, query_spec(a_s, e, col, delta_spec(plaintext_bits))),
            matvec_spec(zeros(rows), tdb, a_s),
            plaintext_bits,
        ) == column_spec(tdb, rows, col),
{
    let m = q_modulus() as int;
    let cols = a_s.len() as int;
    let delta = delta_spec(plaintext_bits);
    let qu = query_spec(a_s, e, col, delta);
    let ans = matvec_spec(zeros(rows), tdb, qu);
    let h = matvec_spec(zeros(rows), tdb, a_s);
    let out = recover_spec(ans, h, plaintext_bits);
    let want = column_spec(tdb, rows, col);
    lemma_delta_times_modulus(plaintext_bits);
    assert(col * rows + rows <= tdb.len()) by (nonlinear_arith)
        requires 0 <= col < cols, tdb.len() == cols * rows;
    assert(col * rows >= 0) by (nonlinear_arith)
        requires 0 <= col;
    assert forall|r: int| 0 <= r < rows implies #[trigger] out[r] == want[r] by {
        let t = |c: int| tdb[c * rows + r] as int;
        let unit = |c: int| if c == col { delta as int } else { 0int };
        let q_terms = |c: int| qu[c] as int * t(c);
        let a_terms = |c: int| a_s[c] as int * t(c);
        let e_terms = |c: int| signed(e[c]) * t(c);
        let u_terms = |c: int| unit(c) * t(c);
        let ae_terms = |c: int| a_terms(c) + e_terms(c);
        let exact = |c: int| ae_terms(c) + u_terms(c);
        assert forall|c: int| 0 <= c < cols implies #[trigger] q_terms(c) % m == exact(c) % m by {
            let raw = a_s[c] as int + e[c] as int + unit(c);
            let sgn = a_s[c] as int + signed(e[c]) + unit(c);
            assert(qu[c] as int == raw % m) by {
                vstd::arithmetic::div_mod::lemma_mod_bound(raw, m);
            }
            if e[c] >= 0x8000_0000 {
                vstd::arithmetic::div_mod::lemma_mod_sub_multiples_vanish(raw, m);
            }
            assert(raw % m == sgn % m);
            vstd::arithmetic::div_mod::lemma_mul_mod_noop_left(raw, t(c), m);
            vstd::arithmetic::div_mod::lemma_mul_mod_noop_left(sgn, t(c), m);
            vstd::arithmetic::mul::lemma_mul_is_distributive_add_other_way(t(c), a_s[c] as int + signed(e[c]), unit(c));
            vstd::arithmetic::mul::lemma_mul_is_distributive_add_other_way(t(c), a_s[c] as int, signed(e[c]));
        }
        lemma_sum_congruent(q_terms, exact, cols, m);
        lemma_sum_add(ae_terms, u_terms, cols);
        lemma_sum_ext(|c: int| ae_terms(c) + u_terms(c), exact, cols);
        lemma_sum_add(a_terms, e_terms, cols);
        lemma_sum_ext(|c: int| a_terms(c) + e_terms(c), ae_terms, cols);
        lemma_sum_single(u_terms, cols, col);
        lemma_sum_ext(e_terms, |c: int| signed(e[c]) * tdb[c * rows + r] as int, cols);
        let noise = answer_noise(tdb, e, rows, r);
        let mcell = tdb[col * rows + r];
        lemma_cell_in_bounds(col, r, rows as int, cols);
        let sa = sum(a_terms, cols);
        let sq = sum(q_terms, cols);
        assert(sum(exact, cols) == sa + noise + delta * mcell);
        lemma_matvec_zero_entry(tdb, qu, rows, r);
        lemma_matvec_zero_entry(tdb, a_s, rows, r);
        lemma_sum_ext(q_terms, |i: int| qu[i] as int * tdb[i * rows + r] as int, cols);
        lemma_sum_ext(a_terms, |i: int| a_s[i] as int * tdb[i * rows + r] as int, cols);
        assert(ans[r] as int == sq % m);
        assert(h[r] as int == sa % m);
        lemma_wrapping_sub_mod(ans[r], h[r]);
        vstd::arithmetic::div_mod::lemma_sub_mod_noop(sq, sa, m);
        vstd::arithmetic::div_mod::lemma_mod_twice(sq, m);
        assert(sq % m == (sa + noise + delta * mcell) % m);
        vstd::arithmetic::div_mod::lemma_sub_mod_noop(sa + noise + delta * mcell, sa, m);
        vstd::arithmetic::div_mod::lemma_mod_twice(sa + noise + delta * mcell, m);
        let d = vstd::wrapping::u32_specs::wrapping_sub(ans[r], h[r]);
        assert(d as int == (mcell * delta + noise) % m) by {
            vstd::arithmetic::mul::lemma_mul_is_commutative(delta as int, mcell as int);
        }
        lemma_round_tolerates_noise(mcell as nat, noise, plaintext_bits);
        assert(out[r] == round_spec(d, plaintext_bits) as u32);
        assert(want[r] == mcell);
    }
    assert(out =~= want);
}

/// The full Row-KOPIR pipeline is correct: for a server and a client whose
/// recover offset is `D·a_s` (both client constructors give this; for the
/// hint-based one see [`lemma_hint_offset_matches_local`]), recovering the
/// server's answer to `query_with_noise(col, e)` yields column `col` of
/// `D`, whenever the cells lie in `[0, p)` and the noise stays below `Δ/2`.
pub proof fn lemma_pir_roundtrip(server: SimplePirServer, client: SimplePirClient, e: Seq<u32>, col: int)
    requires
        server.wf(),
        client.wf(),
        client.query_len() == server.query_len(),
        client.response_len() == server.response_len(),
        client.lwe_params().plaintext_bits == server.lwe_params().plaintext_bits,
        client.recover_offset() == matvec_spec(zeros(server.response_len()), server.database(), client.query_base()),
        e.len() == server.query_len(),
        0 <= col < server.query_len(),
        forall|i: int| 0 <= i < server.database().len() ==> #[trigger] server.database()[i]
            < modulus_spec(server.lwe_params().plaintext_bits),
        forall|r: int| 0 <= r < server.response_len() ==> -(vstd::arithmetic::power2::pow2(
            (31 - server.lwe_params().plaintext_bits) as nat) as int)
            <= #[trigger] answer_noise(server.database(), e, server.response_len(), r)
            < vstd::arithmetic::power2::pow2((31 - server.lwe_params().plaintext_bits) as nat),
    ensures
        recover_spec(
            matvec_spec(
                zeros(server.response_len()),
                server.database(),
                query_spec(client.query_base(), e, col, delta_spec(client.lwe_params().plaintext_bits)),
            ),
            client.recover_offset(),
            client.lwe_params().plaintext_bits,
        ) == column_spec(server.database(), server.response_len(), col),
{
    assert(server.database().len() == client.query_base().len() * server.response_len()) by (nonlinear_arith)
        requires
            server.database().len() == server.response_len() * server.query_len(),
            client.query_base().len() == server.query_len();
    lemma_recover_selects_column(
        server.database(),
        server.response_len(),
        client.query_base(),
        e,
        col,
        server.lwe_params().plaintext_bits,
    );
}

} // verus!
