//! Where applications are loaded.
use super::batch::{copy_image, copied_image, image_fits};
use super::config::{APP_BASE_ADDRESS, APP_SIZE_LIMIT, MAX_APP_NUM};
use vstd::prelude::*;

verus! {

/// The address application `app_id` is loaded at: applications follow one
/// another from `APP_BASE_ADDRESS`, `APP_SIZE_LIMIT` bytes apart.
pub fn get_base_i(app_id: usize) -> (r: usize)
    requires
        APP_BASE_ADDRESS + app_id * APP_SIZE_LIMIT <= usize::MAX,
    ensures
        r == APP_BASE_ADDRESS + app_id * APP_SIZE_LIMIT,
{
    APP_BASE_ADDRESS + app_id * APP_SIZE_LIMIT
}

/// The byte at address `a` once the `n` applications with image boundaries
/// `starts` are loaded over memory `m` from address `base`: in the area of
/// application `i`, its image and then zeros; elsewhere as before.
pub open spec fn loaded_byte(m: Seq<u8>, base: int, starts: Seq<usize>, n: int, a: int) -> u8 {
    let i = (a - APP_BASE_ADDRESS) / (APP_SIZE_LIMIT as int);
    if APP_BASE_ADDRESS <= a < APP_BASE_ADDRESS + n * APP_SIZE_LIMIT {
        if a - (APP_BASE_ADDRESS + i * APP_SIZE_LIMIT) < starts[i + 1] - starts[i] {
            m[starts[i] + (a - (APP_BASE_ADDRESS + i * APP_SIZE_LIMIT)) - base]
        } else {
            0u8
        }
    } else {
        m[a - base]
    }
}

/// Loads the `num_app` applications, whose images lie between the addresses
/// `app_start[i]` and `app_start[i + 1]`, each at `get_base_i(i)` with its area
/// cleared first; memory starts at address `base`.
pub fn load_apps(num_app: usize, app_start: &[usize], mem: &mut [u8], base: usize)
    requires
        num_app <= MAX_APP_NUM,
        app_start@.len() > num_app,
        base <= APP_BASE_ADDRESS,
        APP_BASE_ADDRESS + num_app * APP_SIZE_LIMIT <= base + old(mem)@.len(),
        forall|i: int|
            0 <= i < num_app ==> #[trigger] app_start@[i] <= app_start@[i + 1] && app_start@[i + 1] - app_start@[i]
                <= APP_SIZE_LIMIT && base <= app_start@[i] && app_start@[i + 1] <= base + old(mem)@.len() && (
            app_start@[i + 1] <= APP_BASE_ADDRESS || APP_BASE_ADDRESS + num_app * APP_SIZE_LIMIT <= app_start@[i]),
    ensures
        final(mem)@.len() == old(mem)@.len(),
        forall|k: int|
            0 <= k < old(mem)@.len() ==> #[trigger] final(mem)@[k] == loaded_byte(
                old(mem)@,
                base as int,
                app_start@,
                num_app as int,
                base + k,
            ),
{
    let _len = mem.len();
    let ghost m0 = mem@;
    let mut i: usize = 0;
    while i < num_app
        invariant
            i <= num_app <= MAX_APP_NUM,
            app_start@.len() > num_app,
            base <= APP_BASE_ADDRESS,
            APP_BASE_ADDRESS + num_app * APP_SIZE_LIMIT <= base + m0.len(),
            mem@.len() == m0.len(),
            m0.len() <= usize::MAX,
            forall|j: int|
                0 <= j < num_app ==> #[trigger] app_start@[j] <= app_start@[j + 1] && app_start@[j + 1]
                    - app_start@[j] <= APP_SIZE_LIMIT && base <= app_start@[j] && app_start@[j + 1] <= base
                    + m0.len() && (app_start@[j + 1] <= APP_BASE_ADDRESS || APP_BASE_ADDRESS + num_app
                    * APP_SIZE_LIMIT <= app_start@[j]),
            forall|k: int|
                0 <= k < m0.len() ==> #[trigger] mem@[k] == loaded_byte(m0, base as int, app_start@, i as int, base + k),
        decreases num_app - i,
    {
        let base_i = get_base_i(i);
        let src = app_start[i];
        let len = app_start[i + 1] - src;
        let ghost m1 = mem@;
        proof {
            assert(app_start@[i as int] <= app_start@[i + 1]);
            assert(base_i + APP_SIZE_LIMIT <= APP_BASE_ADDRESS + num_app * APP_SIZE_LIMIT) by (nonlinear_arith)
                requires
                    i < num_app,
                    base_i == APP_BASE_ADDRESS + i * APP_SIZE_LIMIT,
            ;
        }
        copy_image(mem, base, src, len, base_i, APP_SIZE_LIMIT);
        proof {
            assert forall|k: int| 0 <= k < m0.len() implies #[trigger] mem@[k] == loaded_byte(
                m0,
                base as int,
                app_start@,
                i + 1,
                base + k,
            ) by {
                let a = base + k;
                let q = (a - APP_BASE_ADDRESS) / (APP_SIZE_LIMIT as int);
                if base_i <= a < base_i + APP_SIZE_LIMIT {
                    assert(q == i) by (nonlinear_arith)
                        requires
                            base_i == APP_BASE_ADDRESS + i * APP_SIZE_LIMIT,
                            base_i <= a < base_i + APP_SIZE_LIMIT,
                            q == (a - APP_BASE_ADDRESS) / (APP_SIZE_LIMIT as int),
                    ;
                    if a - base_i < len {
                        let s = src + (a - base_i) - base;
                        assert(!(APP_BASE_ADDRESS <= base + s < APP_BASE_ADDRESS + i * APP_SIZE_LIMIT)) by (
                        nonlinear_arith)
                            requires
                                src + len <= APP_BASE_ADDRESS || APP_BASE_ADDRESS + num_app * APP_SIZE_LIMIT <= src,
                                0 <= a - base_i < len,
                                s == src + (a - base_i) - base,
                                i <= num_app,
                        ;
                        assert(m1[s] == loaded_byte(m0, base as int, app_start@, i as int, base + s));
                    }
                } else {
                    if APP_BASE_ADDRESS <= a < APP_BASE_ADDRESS + i * APP_SIZE_LIMIT {
                        assert(q < i) by (nonlinear_arith)
                            requires
                                APP_BASE_ADDRESS <= a < APP_BASE_ADDRESS + i * APP_SIZE_LIMIT,
                                q == (a - APP_BASE_ADDRESS) / (APP_SIZE_LIMIT as int),
                        ;
                    } else {
                        assert(!(APP_BASE_ADDRESS <= a < APP_BASE_ADDRESS + (i + 1) * APP_SIZE_LIMIT)) by (
                        nonlinear_arith)
                            requires
                                !(APP_BASE_ADDRESS <= a < APP_BASE_ADDRESS + i * APP_SIZE_LIMIT),
                                !(base_i <= a < base_i + APP_SIZE_LIMIT),
                                base_i == APP_BASE_ADDRESS + i * APP_SIZE_LIMIT,
                        ;
                    }
                }
            }
        }
        i += 1;
    }
}

} // verus!
