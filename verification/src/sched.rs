use vstd::prelude::*;

use crate::idt::Registers;
use crate::mem::heap_flags;
use crate::mem::pmm::FreePageList;
use crate::mem::vmm::{region_alloc_ok, region_alloc_post, region_base, PageMap, VMMFlags, KTPRESENT, KTWRITEALLOWED};

verus! {

/// Code segment selector of user mode (ring 3).
pub const USER_CS: usize = 0x43;

/// The saved context of a thread.
pub struct cpu_ctx {
    pub frame: Registers,
}

/// A register frame with every general register zero.
pub open spec fn frame_of(entry: usize, cs: usize, ss: usize, rsp: usize) -> Registers {
    Registers {
        int: 0,
        r15: 0,
        r14: 0,
        r13: 0,
        r12: 0,
        r11: 0,
        r10: 0,
        r9: 0,
        r8: 0,
        rdi: 0,
        rsi: 0,
        rdx: 0,
        rcx: 0,
        rbx: 0,
        rax: 0,
        rbp: 0,
        error_code: 0,
        rip: entry,
        cs,
        rflags: 0x202,
        rsp,
        ss,
    }
}

impl cpu_ctx {
    /// The context a new thread starts in: it runs from `entry` on the stack
    /// `rsp` with interrupts enabled, in user mode (selectors 0x43 and 0x3b)
    /// or in kernel mode (selectors 0x28 and 0x30).
    pub fn new(entry: usize, usermode: bool, rsp: usize) -> (r: Self)
        ensures
            usermode ==> r.frame == frame_of(entry, 0x43, 0x3b, rsp),
            !usermode ==> r.frame == frame_of(entry, 0x28, 0x30, rsp),
    {
        if usermode {
            let o = Registers {
                int: 0,
                r10: 0,
                r11: 0,
                r12: 0,
                r13: 0,
                r14: 0,
                r15: 0,
                r8: 0,
                r9: 0,
                rax: 0,
                rbp: 0,
                rbx: 0,
                rcx: 0,
                rdi: 0,
                rdx: 0,
                rip: entry,
                rsi: 0,
                error_code: 0,
                cs: 0x40 | 3,
                ss: 0x38 | 3,
                rflags: 0x202,
                rsp: rsp,
            };
            proof {
                assert(0x40usize | 3 == 0x43 && 0x38usize | 3 == 0x3b) by (bit_vector);
            }
            cpu_ctx { frame: o }
        } else {
            let o = Registers {
                int: 0,
                r10: 0,
                r11: 0,
                r12: 0,
                r13: 0,
                r14: 0,
                r15: 0,
                r8: 0,
                r9: 0,
                rax: 0,
                rbp: 0,
                rbx: 0,
                rcx: 0,
                rdi: 0,
                rdx: 0,
                rip: entry,
                rsi: 0,
                error_code: 0,
                cs: 0x28,
                ss: 0x30,
                rflags: 0x202,
                rsp: rsp,
            };
            cpu_ctx { frame: o }
        }
    }
}

/// A thread: its name, ids, saved context, the next thread of its queue (by
/// index into the thread table) and the root table of its address space, if
/// it has one of its own.
pub struct Thread {
    pub name: String,
    pub tid: usize,
    pub gs_base: usize,
    pub fs: usize,
    pub content: cpu_ctx,
    pub next: Option<usize>,
    pub process: Option<u64>,
}

impl Thread {
    /// A thread with no successor and no address space of its own.
    pub fn new(name: &str, tid: usize, gs_base: usize, fs: usize, context: cpu_ctx) -> (r: Self)
        ensures
            r.name@ == name@,
            r.tid == tid,
            r.gs_base == gs_base,
            r.fs == fs,
            r.content == context,
            r.next is None,
            r.process is None,
    {
        Thread { name: name.to_string(), tid, gs_base, fs, content: context, next: None, process: None }
    }
}

/// Per-CPU scheduler state: the top of the kernel stack, the head of the run
/// queue and the running thread (indices into the thread table).
pub struct perthreadcpu {
    pub kernal_stack_ptr: usize,
    pub user_stack_ptr: Option<usize>,
    pub run_queue: Option<usize>,
    pub cur_thread: Option<usize>,
}

/// The size of a kernel stack.
pub const KSTACK_SIZE: usize = 65536;

/// Sets up the scheduler state of a CPU: a kernel stack of 64 KiB taken as a
/// region of the kernel's address space `kermap`, mapped present and
/// writable with frames of `pmm`, with the stack pointer at its top; no user
/// stack, an empty run queue and no running thread.
pub fn sched_init(kermap: &mut PageMap, pmm: &mut FreePageList) -> (r: perthreadcpu)
    requires
        region_alloc_ok(*old(kermap), *old(pmm), KSTACK_SIZE, heap_flags()),
        region_base(*old(kermap), KSTACK_SIZE) + KSTACK_SIZE <= usize::MAX,
    ensures
        region_alloc_post(
            *old(kermap),
            *final(kermap),
            *old(pmm),
            *final(pmm),
            KSTACK_SIZE,
            heap_flags(),
            Some(region_base(*old(kermap), KSTACK_SIZE)),
        ),
        r.kernal_stack_ptr == region_base(*old(kermap), KSTACK_SIZE) + KSTACK_SIZE,
        r.user_stack_ptr is None,
        r.run_queue is None,
        r.cur_thread is None,
{
    let flags = VMMFlags::from_bits(KTPRESENT | KTWRITEALLOWED);
    let base = kermap.vmm_region_alloc(pmm, KSTACK_SIZE, flags).unwrap();
    let new_kstack = base as usize + KSTACK_SIZE;
    perthreadcpu { kernal_stack_ptr: new_kstack, user_stack_ptr: None, run_queue: None, cur_thread: None }
}

/// The thread indices of `cpu` and the links of `threads` all name threads.
pub open spec fn links_ok(cpu: perthreadcpu, threads: Seq<Thread>) -> bool {
    &&& cpu.run_queue matches Some(h) ==> h < threads.len()
    &&& cpu.cur_thread matches Some(c) ==> c < threads.len()
    &&& forall|i: int| 0 <= i < threads.len() ==> ((#[trigger] threads[i]).next matches Some(n) ==> n < threads.len())
}

/// The thread to run next: the successor of the running thread, or else the
/// head of the run queue.
pub open spec fn next_thread(cpu: perthreadcpu, threads: Seq<Thread>) -> Option<usize> {
    match cpu.cur_thread {
        Some(c) => match threads[c as int].next {
            Some(n) => Some(n),
            None => cpu.run_queue,
        },
        None => cpu.run_queue,
    }
}

/// The thread table with the frame `regs` saved in the running thread.
pub open spec fn saved(cpu: perthreadcpu, threads: Seq<Thread>, regs: Registers) -> Seq<Thread> {
    match cpu.cur_thread {
        Some(c) => threads.update(
            c as int,
            Thread {
                name: threads[c as int].name,
                tid: threads[c as int].tid,
                gs_base: threads[c as int].gs_base,
                fs: threads[c as int].fs,
                content: cpu_ctx { frame: regs },
                next: threads[c as int].next,
                process: threads[c as int].process,
            },
        ),
        None => threads,
    }
}

/// `cpu2`, `threads2` and `r` are what a timer tick with frame `regs` makes of
/// `cpu` and `threads`: the frame is saved in the running thread, the next
/// thread becomes the running one and its frame is returned; with no next
/// thread nothing is returned and the running thread stays.
pub open spec fn schedule_post(
    cpu: perthreadcpu,
    threads: Seq<Thread>,
    regs: Registers,
    cpu2: perthreadcpu,
    threads2: Seq<Thread>,
    r: Option<Registers>,
) -> bool {
    &&& threads2 == saved(cpu, threads, regs)
    &&& links_ok(cpu2, threads2)
    &&& cpu2.run_queue == cpu.run_queue
    &&& cpu2.kernal_stack_ptr == cpu.kernal_stack_ptr
    &&& cpu2.user_stack_ptr == cpu.user_stack_ptr
    &&& next_thread(cpu, threads) matches Some(n) ==> {
        &&& cpu2.cur_thread == Some(n)
        &&& r == Some(threads2[n as int].content.frame)
    }
    &&& next_thread(cpu, threads) is None ==> r is None && cpu2.cur_thread == cpu.cur_thread
}

/// Round robin: a tick switches from the running thread to its successor in
/// the queue, and from a thread without successor, or when none runs, to the
/// head of the run queue; the thread switched to resumes with its saved frame,
/// or with `regs` when it is the running thread itself.
pub proof fn schedule_runs_successor(
    cpu: perthreadcpu,
    threads: Seq<Thread>,
    regs: Registers,
    cpu2: perthreadcpu,
    threads2: Seq<Thread>,
    r: Option<Registers>,
)
    requires
        links_ok(cpu, threads),
        schedule_post(cpu, threads, regs, cpu2, threads2, r),
    ensures
        ({
            let to = match cpu.cur_thread {
                Some(c) => if threads[c as int].next is Some { threads[c as int].next } else { cpu.run_queue },
                None => cpu.run_queue,
            };
            &&& to is None ==> r is None && cpu2.cur_thread == cpu.cur_thread
            &&& to matches Some(n) ==> {
                &&& cpu2.cur_thread == Some(n)
                &&& r == Some(if cpu.cur_thread == Some(n) { regs } else { threads[n as int].content.frame })
            }
        }),
{
}

/// Timer tick: saves `regs` in the running thread and switches to the next
/// one; returns the frame to resume, or `None` when there is no thread to
/// switch to.
///
/// Frames of user mode are left out: the kernel does not run user code yet.
pub fn schedule_task(cpu: &mut perthreadcpu, threads: &mut Vec<Thread>, regs: Registers) -> (r: Option<Registers>)
    requires
        regs.cs != USER_CS,
        links_ok(*old(cpu), old(threads)@),
        next_thread(*old(cpu), old(threads)@) matches Some(n) ==> saved(*old(cpu), old(threads)@, regs)[n as int].content.frame.cs != USER_CS,
    ensures
        schedule_post(*old(cpu), old(threads)@, regs, *final(cpu), final(threads)@, r),
{
    match cpu.cur_thread {
        Some(c) => {
            let ghost t0 = threads@;
            let mut t = threads.remove(c);
            t.content.frame = regs;
            threads.insert(c, t);
            proof {
                assert(threads@ =~= saved(*old(cpu), t0, regs));
            }
            match threads[c].next {
                Some(n) => {
                    cpu.cur_thread = Some(n);
                },
                None => {
                    match cpu.run_queue {
                        Some(h) => {
                            cpu.cur_thread = Some(h);
                        },
                        None => {
                            return None;
                        },
                    }
                },
            }
        },
        None => {
            match cpu.run_queue {
                Some(h) => {
                    cpu.cur_thread = Some(h);
                },
                None => {
                    return None;
                },
            }
        },
    }
    let cur = cpu.cur_thread.unwrap();
    let our = threads[cur].content.frame;
    Some(our)
}

/// Makes a kernel thread that starts at `entry` on the kernel stack of `cpu`
/// and puts it at the head of the run queue.
pub fn create_kentry(cpu: &mut perthreadcpu, threads: &mut Vec<Thread>, entry: usize)
    ensures
        final(threads)@.len() == old(threads)@.len() + 1,
        final(threads)@.subrange(0, old(threads)@.len() as int) == old(threads)@,
        final(cpu).run_queue == Some(old(threads)@.len() as usize),
        final(cpu).cur_thread == old(cpu).cur_thread,
        final(cpu).kernal_stack_ptr == old(cpu).kernal_stack_ptr,
        final(cpu).user_stack_ptr == old(cpu).user_stack_ptr,
        ({
            let t = final(threads)@[old(threads)@.len() as int];
            &&& t.name@ == "MY MAN"@
            &&& t.tid == 0 && t.gs_base == 0 && t.fs == 0
            &&& t.next is None && t.process is None
            &&& t.content.frame == frame_of(entry, 0x28, 0x30, old(cpu).kernal_stack_ptr)
        }),
{
    let new_ctx = cpu_ctx::new(entry, false, cpu.kernal_stack_ptr);
    let new_man = Thread::new("MY MAN", 0, 0, 0, new_ctx);
    let idx = threads.len();
    threads.push(new_man);
    cpu.run_queue = Some(idx);
    proof {
        assert(threads@.subrange(0, idx as int) =~= old(threads)@);
    }
}

} // verus!
