//! Code parameters.
//!
//! A [`CodeSpec`] fixes the rational constants of the recursive code: the
//! compression ratio `alpha = alpha_num / alpha_den` of each precode level,
//! the distance parameter `beta = beta_num / beta_den`, the rate
//! `r = r_num / r_den > 1` relating message length to codeword length, and
//! the base-case length at which the recursion stops.  The six standard
//! parameter rows are provided as constructors.

use vstd::prelude::*;

verus! {

/// The rational parameters of a recursive code.
#[derive(Clone, Copy, Debug, PartialEq, Eq, Structural)]
pub struct CodeSpec {
    pub alpha_num: usize,
    pub alpha_den: usize,
    pub beta_num: usize,
    pub beta_den: usize,
    pub r_num: usize,
    pub r_den: usize,
    pub base_len: usize,
}

impl CodeSpec {
    /// Well-formed parameters: `0 < alpha < 1`, `0 < beta < 1`, `r > 1`,
    /// `base_len >= 1`, with all constants small enough that size
    /// computations on lengths below `2^32` cannot overflow.
    pub open spec fn wf(self) -> bool {
        &&& 0 < self.alpha_num < self.alpha_den <= 0x10000
        &&& 0 < self.beta_num < self.beta_den <= 0x10000
        &&& 0 < self.r_den < self.r_num <= 0x10000
        &&& 1 <= self.base_len <= 0x10000
    }

    /// Build a parameter set, rejecting degenerate combinations.
    pub fn new(
        alpha_num: usize,
        alpha_den: usize,
        beta_num: usize,
        beta_den: usize,
        r_num: usize,
        r_den: usize,
        base_len: usize,
    ) -> (r: Option<CodeSpec>)
        ensures
            r matches Some(cs) ==> cs == (CodeSpec {
                alpha_num,
                alpha_den,
                beta_num,
                beta_den,
                r_num,
                r_den,
                base_len,
            }) && cs.wf(),
            r is None ==> !(CodeSpec {
                alpha_num,
                alpha_den,
                beta_num,
                beta_den,
                r_num,
                r_den,
                base_len,
            }).wf(),
    {
        let cs = CodeSpec { alpha_num, alpha_den, beta_num, beta_den, r_num, r_den, base_len };
        if 0 < alpha_num && alpha_num < alpha_den && alpha_den <= 0x10000 && 0 < beta_num
            && beta_num < beta_den && beta_den <= 0x10000 && 0 < r_den && r_den < r_num && r_num
            <= 0x10000 && 1 <= base_len && base_len <= 0x10000 {
            Some(cs)
        } else {
            None
        }
    }

    /// First row of the parameter table: `alpha = 0.1195`, `beta = 0.0284`, `r = 1.42`.
    pub fn code1() -> (r: CodeSpec)
        ensures
            r.wf(),
            r == (CodeSpec {
                alpha_num: 239,
                alpha_den: 2000,
                beta_num: 71,
                beta_den: 2500,
                r_num: 71,
                r_den: 50,
                base_len: 20,
            }),
    {
        CodeSpec {
            alpha_num: 239,
            alpha_den: 2000,
            beta_num: 71,
            beta_den: 2500,
            r_num: 71,
            r_den: 50,
            base_len: 20,
        }
    }

    /// Second row of the parameter table: `alpha = 0.138`, `beta = 0.0444`, `r = 1.47`.
    pub fn code2() -> (r: CodeSpec)
        ensures
            r.wf(),
            r == (CodeSpec {
                alpha_num: 69,
                alpha_den: 500,
                beta_num: 111,
                beta_den: 2500,
                r_num: 147,
                r_den: 100,
                base_len: 20,
            }),
    {
        CodeSpec {
            alpha_num: 69,
            alpha_den: 500,
            beta_num: 111,
            beta_den: 2500,
            r_num: 147,
            r_den: 100,
            base_len: 20,
        }
    }

    /// Third row of the parameter table: `alpha = 0.178`, `beta = 0.061`, `r = 1.521`.
    pub fn code3() -> (r: CodeSpec)
        ensures
            r.wf(),
            r == (CodeSpec {
                alpha_num: 89,
                alpha_den: 500,
                beta_num: 61,
                beta_den: 1000,
                r_num: 1521,
                r_den: 1000,
                base_len: 20,
            }),
    {
        CodeSpec {
            alpha_num: 89,
            alpha_den: 500,
            beta_num: 61,
            beta_den: 1000,
            r_num: 1521,
            r_den: 1000,
            base_len: 20,
        }
    }

    /// Fourth row of the parameter table: `alpha = 0.2`, `beta = 0.082`, `r = 1.64`.
    pub fn code4() -> (r: CodeSpec)
        ensures
            r.wf(),
            r == (CodeSpec {
                alpha_num: 1,
                alpha_den: 5,
                beta_num: 41,
                beta_den: 500,
                r_num: 41,
                r_den: 25,
                base_len: 20,
            }),
    {
        CodeSpec {
            alpha_num: 1,
            alpha_den: 5,
            beta_num: 41,
            beta_den: 500,
            r_num: 41,
            r_den: 25,
            base_len: 20,
        }
    }

    /// Fifth row of the parameter table: `alpha = 0.211`, `beta = 0.097`, `r = 1.616`.
    pub fn code5() -> (r: CodeSpec)
        ensures
            r.wf(),
            r == (CodeSpec {
                alpha_num: 211,
                alpha_den: 1000,
                beta_num: 97,
                beta_den: 1000,
                r_num: 202,
                r_den: 125,
                base_len: 20,
            }),
    {
        CodeSpec {
            alpha_num: 211,
            alpha_den: 1000,
            beta_num: 97,
            beta_den: 1000,
            r_num: 202,
            r_den: 125,
            base_len: 20,
        }
    }

    /// Sixth row of the parameter table: `alpha = 0.238`, `beta = 0.1205`, `r = 1.72`.
    pub fn code6() -> (r: CodeSpec)
        ensures
            r.wf(),
            r == (CodeSpec {
                alpha_num: 119,
                alpha_den: 500,
                beta_num: 241,
                beta_den: 2000,
                r_num: 43,
                r_den: 25,
                base_len: 20,
            }),
    {
        CodeSpec {
            alpha_num: 119,
            alpha_den: 500,
            beta_num: 241,
            beta_den: 2000,
            r_num: 43,
            r_den: 25,
            base_len: 20,
        }
    }
}

} // verus!
