//! The program break of a process: the end of its heap.
use vstd::prelude::*;

verus! {

/// Moves the program break `program_brk` by `size` bytes, never below
/// `heap_bottom`. `resize(new_end, shrink)` grows or shrinks the heap area to
/// end at `new_end` (shrinking when `size` is negative) and tells whether it
/// could. Returns the old break when the break moved, `None` when the new
/// break would fall below the heap's bottom (then `resize` is not called) or
/// when `resize` failed; in both cases the break stays.
pub fn change_program_brk<R: FnOnce(usize, bool) -> bool>(
    program_brk: &mut usize,
    heap_bottom: usize,
    size: i32,
    resize: R,
) -> (r: Option<usize>)
    requires
        *old(program_brk) <= isize::MAX,
        heap_bottom <= isize::MAX,
        *old(program_brk) + size <= isize::MAX,
        *old(program_brk) + size >= heap_bottom ==> call_requires(
            resize,
            (((*old(program_brk) + size) as usize), size < 0),
        ),
    ensures
        *old(program_brk) + size < heap_bottom ==> r is None,
        r is None ==> *final(program_brk) == *old(program_brk),
        r is Some ==> {
            &&& r == Some(*old(program_brk))
            &&& *final(program_brk) == *old(program_brk) + size
            &&& call_ensures(resize, (*final(program_brk), size < 0), true)
        },
        *old(program_brk) + size >= heap_bottom && r is None ==> call_ensures(
            resize,
            (((*old(program_brk) + size) as usize), size < 0),
            false,
        ),
{
    let old_brk = *program_brk;
    let new_brk: isize = *program_brk as isize + size as isize;
    if new_brk < heap_bottom as isize {
        return None;
    }
    let result = resize(new_brk as usize, size < 0);
    if result {
        *program_brk = new_brk as usize;
        Some(old_brk)
    } else {
        None
    }
}

} // verus!
