//! The batch system: applications linked into the kernel image are copied, one
//! at a time, to the address they run at.
//!
//! Physical memory is given as a byte slice and the physical address of its
//! first byte.
use vstd::prelude::*;

verus! {

/// Most applications the batch system holds.
pub const MAX_APP_NUM: usize = 6;

/// Where an application runs.
pub const APP_BASE_ADDRESS: usize = 0x80400000;

/// The room an application has.
pub const APP_SIZE_LIMIT: usize = 0x20000;

/// Memory `m` after clearing `limit` bytes from address `dst` and copying there
/// the `len` bytes from address `src`, where memory starts at address `base`.
pub open spec fn copied_image(m: Seq<u8>, base: int, src: int, len: int, dst: int, limit: int) -> Seq<u8> {
    Seq::new(
        m.len(),
        |k: int|
            if dst <= base + k < dst + len {
                m[src + (base + k - dst) - base]
            } else if dst <= base + k < dst + limit {
                0u8
            } else {
                m[k]
            },
    )
}

/// The `len` bytes from address `src`, and the `len` bytes and the `limit`
/// bytes from address `dst`, lie in memory from address `base`, and the source
/// overlaps neither.
pub open spec fn image_fits(mlen: int, base: int, src: int, len: int, dst: int, limit: int) -> bool {
    &&& 0 <= len
    &&& 0 <= limit
    &&& base <= src
    &&& src + len <= base + mlen
    &&& base <= dst
    &&& dst + len <= base + mlen
    &&& dst + limit <= base + mlen
    &&& (src + len <= dst || (dst + len <= src && dst + limit <= src))
}

/// Clears `limit` bytes from address `dst`, then copies there the `len` bytes
/// from address `src`; memory starts at address `base`.
pub(crate) fn copy_image(mem: &mut [u8], base: usize, src: usize, len: usize, dst: usize, limit: usize)
    requires
        image_fits(old(mem)@.len() as int, base as int, src as int, len as int, dst as int, limit as int),
    ensures
        final(mem)@ == copied_image(old(mem)@, base as int, src as int, len as int, dst as int, limit as int),
{
    let _len = mem.len();
    let ghost m0 = mem@;
    let mut i: usize = 0;
    while i < limit
        invariant
            image_fits(m0.len() as int, base as int, src as int, len as int, dst as int, limit as int),
            mem@.len() == m0.len(),
            m0.len() <= usize::MAX,
            i <= limit,
            forall|k: int|
                0 <= k < m0.len() ==> #[trigger] mem@[k] == if dst <= base + k < dst + i {
                    0u8
                } else {
                    m0[k]
                },
        decreases limit - i,
    {
        mem[dst - base + i] = 0;
        i += 1;
    }
    let ghost m1 = mem@;
    let mut j: usize = 0;
    while j < len
        invariant
            image_fits(m0.len() as int, base as int, src as int, len as int, dst as int, limit as int),
            mem@.len() == m0.len(),
            m0.len() <= usize::MAX,
            j <= len,
            forall|k: int|
                0 <= k < m0.len() ==> #[trigger] m1[k] == if dst <= base + k < dst + limit {
                    0u8
                } else {
                    m0[k]
                },
            forall|k: int|
                0 <= k < m0.len() ==> #[trigger] mem@[k] == if dst <= base + k < dst + j {
                    m0[src + (base + k - dst) - base]
                } else {
                    m1[k]
                },
        decreases len - j,
    {
        let b = mem[src - base + j];
        proof {
            assert(m1[src + j - base] == m0[src + j - base]);
        }
        mem[dst - base + j] = b;
        j += 1;
    }
    proof {
        assert(mem@ =~= copied_image(m0, base as int, src as int, len as int, dst as int, limit as int));
    }
}

/// The applications, by where their images start in memory, and which runs next.
pub struct AppManager {
    pub num_app: usize,
    pub current_app: usize,
    pub app_start: [usize; 7],
}

impl AppManager {
    /// The number of the application that runs next.
    pub fn get_current_app(&self) -> (r: usize)
        ensures
            r == self.current_app,
    {
        self.current_app
    }

    /// Moves on to the next application.
    pub fn move_next_app(&mut self)
        requires
            old(self).current_app < usize::MAX,
        ensures
            final(self).current_app == old(self).current_app + 1,
            final(self).num_app == old(self).num_app,
            final(self).app_start == old(self).app_start,
    {
        self.current_app += 1;
    }

    /// Loads application `app_id`: clears the application area and copies the
    /// image there; `false`, with memory untouched, when there is no such
    /// application, all of them having run.
    pub fn load_app(&self, app_id: usize, mem: &mut [u8], base: usize) -> (loaded: bool)
        requires
            self.num_app <= MAX_APP_NUM,
            app_id < self.num_app ==> self.app_start@[app_id as int] <= self.app_start@[app_id + 1],
            app_id < self.num_app ==> image_fits(
                old(mem)@.len() as int,
                base as int,
                self.app_start@[app_id as int] as int,
                self.app_start@[app_id + 1] - self.app_start@[app_id as int],
                APP_BASE_ADDRESS as int,
                APP_SIZE_LIMIT as int,
            ),
        ensures
            loaded == (app_id < self.num_app),
            !loaded ==> final(mem)@ == old(mem)@,
            loaded ==> final(mem)@ == copied_image(
                old(mem)@,
                base as int,
                self.app_start@[app_id as int] as int,
                self.app_start@[app_id + 1] - self.app_start@[app_id as int],
                APP_BASE_ADDRESS as int,
                APP_SIZE_LIMIT as int,
            ),
    {
        if app_id >= self.num_app {
            return false;
        }
        let src = self.app_start[app_id];
        let len = self.app_start[app_id + 1] - src;
        copy_image(mem, base, src, len, APP_BASE_ADDRESS, APP_SIZE_LIMIT);
        true
    }

    /// Loads the current application and moves on to the next; `false`, with
    /// nothing changed, when all applications have run.
    pub fn run_next_app(&mut self, mem: &mut [u8], base: usize) -> (loaded: bool)
        requires
            old(self).num_app <= MAX_APP_NUM,
            old(self).current_app < old(self).num_app ==> old(self).app_start@[old(self).current_app as int]
                <= old(self).app_start@[old(self).current_app + 1],
            old(self).current_app < old(self).num_app ==> image_fits(
                old(mem)@.len() as int,
                base as int,
                old(self).app_start@[old(self).current_app as int] as int,
                old(self).app_start@[old(self).current_app + 1] - old(self).app_start@[old(self).current_app as int],
                APP_BASE_ADDRESS as int,
                APP_SIZE_LIMIT as int,
            ),
        ensures
            loaded == (old(self).current_app < old(self).num_app),
            !loaded ==> *final(self) == *old(self) && final(mem)@ == old(mem)@,
            loaded ==> final(self).current_app == old(self).current_app + 1,
            loaded ==> final(self).num_app == old(self).num_app && final(self).app_start == old(self).app_start,
            loaded ==> final(mem)@ == copied_image(
                old(mem)@,
                base as int,
                old(self).app_start@[old(self).current_app as int] as int,
                old(self).app_start@[old(self).current_app + 1] - old(self).app_start@[old(self).current_app as int],
                APP_BASE_ADDRESS as int,
                APP_SIZE_LIMIT as int,
            ),
    {
        let current_app = self.get_current_app();
        if !self.load_app(current_app, mem, base) {
            return false;
        }
        self.move_next_app();
        true
    }
}

} // verus!
