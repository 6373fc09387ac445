use nyaux_kt::gdt::{gdt_entries, GDTR};
use nyaux_kt::idt::{idt_set_gate, GateDescriptor, Idt, InterruptManager, Registers, IDT_ENTRIES};
use nyaux_kt::sched::{cpu_ctx, create_kentry, perthreadcpu, schedule_task, Thread, USER_CS};
use nyaux_kt::timers::hpet::{HPET, COUNTER_64BIT};
use nyaux_kt::timers::lapic::{get_lapic_addr, lapic_ticks, timer_lvt};

fn regs(rip: usize) -> Registers {
    let mut r = cpu_ctx::new(rip, false, 0x8000).frame;
    r.rax = rip + 1;
    r
}

fn cpu() -> perthreadcpu {
    perthreadcpu { kernal_stack_ptr: 0xffff_9000_0001_0000, user_stack_ptr: None, run_queue: None, cur_thread: None }
}

#[test]
fn gdtr_limit_is_size_less_one() {
    let g = GDTR::new(0x1000, 72);
    assert_eq!(g.size, 71);
    assert_eq!(g.offset, 0x1000);
    let e = gdt_entries();
    assert_eq!(e.len(), 9);
    assert_eq!(e[0], 0);
    assert_eq!(e[3], 0x00cf9a000000ffff);
    assert_eq!(e[5], 0x00af9b000000ffff);
    assert_eq!(e[8], 0x00affb000000ffff);
}

#[test]
fn idt_set_gate_splits_the_address() {
    let mut idt = Idt::new();
    let empty = idt.gate(14);
    assert_eq!(empty.offset, 0);
    assert_eq!(empty.flags, 0);
    idt_set_gate(&mut idt, 14, 0x1234_5678_9abc_def0);
    let g = idt.gate(14);
    assert_eq!(g.offset, 0xdef0);
    assert_eq!(g.offset_mid, 0x9abc);
    assert_eq!(g.offset_hi, 0x1234_5678);
    assert_eq!(g.seg, 0x28);
    assert_eq!(g.flags, 0xEE);
    assert_eq!(g.ist_and_reversed, 0);
    assert_eq!(g.reversed, 0);
    assert_eq!(idt.gate(13).offset, 0);
    let n = GateDescriptor::new();
    assert_eq!(n.offset_hi, 0);
}

#[test]
fn start_idt_installs_the_six_handlers() {
    let mut idt = Idt::new();
    InterruptManager::start_idt(&mut idt, 0x1000, 0x2000, 0x3000, 0x4000, 0x5000, 0xffff_ffff_8000_6000);
    let addr = |g: GateDescriptor| (g.offset as u64) | ((g.offset_mid as u64) << 16) | ((g.offset_hi as u64) << 32);
    assert_eq!(addr(idt.gate(0x00)), 0x1000);
    assert_eq!(addr(idt.gate(0x06)), 0x2000);
    assert_eq!(addr(idt.gate(0x08)), 0x3000);
    assert_eq!(addr(idt.gate(0x0D)), 0x4000);
    assert_eq!(addr(idt.gate(0x0E)), 0x5000);
    assert_eq!(addr(idt.gate(34)), 0xffff_ffff_8000_6000);
    assert_eq!(addr(idt.gate(1)), 0);
    for v in [0x00, 0x06, 0x08, 0x0D, 0x0E, 34] {
        let g = idt.gate(v);
        assert_eq!((g.seg, g.flags, g.ist_and_reversed, g.reversed), (0x28, 0xEE, 0, 0));
    }
    assert_eq!(idt.gate(IDT_ENTRIES - 1).seg, 0);
}

#[test]
fn cpu_ctx_selectors() {
    let k = cpu_ctx::new(0x1234, false, 0x9000);
    assert_eq!(k.frame.rip, 0x1234);
    assert_eq!(k.frame.cs, 0x28);
    assert_eq!(k.frame.ss, 0x30);
    assert_eq!(k.frame.rflags, 0x202);
    assert_eq!(k.frame.rsp, 0x9000);
    assert_eq!(k.frame.rax, 0);
    let u = cpu_ctx::new(0x1234, true, 0x9000);
    assert_eq!(u.frame.cs, 0x43);
    assert_eq!(u.frame.ss, 0x3b);
    assert_eq!(u.frame.cs, USER_CS);
}

#[test]
fn schedule_task_with_no_thread_is_none() {
    let mut c = cpu();
    let mut threads: Vec<Thread> = Vec::new();
    assert!(schedule_task(&mut c, &mut threads, regs(0x100)).is_none());
    assert_eq!(c.cur_thread, None);
}

#[test]
fn create_kentry_then_schedule_runs_it() {
    let mut c = cpu();
    let mut threads: Vec<Thread> = Vec::new();
    create_kentry(&mut c, &mut threads, 0xffff_ffff_8000_1000);
    assert_eq!(c.run_queue, Some(0));
    assert_eq!(threads[0].name, "MY MAN");
    assert_eq!(threads[0].next, None);
    let r = schedule_task(&mut c, &mut threads, regs(0x100)).unwrap();
    assert_eq!(r.rip, 0xffff_ffff_8000_1000);
    assert_eq!(r.rsp, 0xffff_9000_0001_0000);
    assert_eq!(r.cs, 0x28);
    assert_eq!(c.cur_thread, Some(0));
    // the next tick saves the frame in the running thread, and with no
    // successor the head of the run queue runs again
    let r2 = schedule_task(&mut c, &mut threads, regs(0x200)).unwrap();
    assert_eq!(r2.rip, 0x200);
    assert_eq!(r2.rax, 0x201);
    assert_eq!(threads[0].content.frame.rip, 0x200);
}

#[test]
fn schedule_task_follows_the_links() {
    let mut c = cpu();
    let mut threads: Vec<Thread> = Vec::new();
    threads.push(Thread::new("a", 1, 0, 0, cpu_ctx::new(0x1000, false, 0x1_0000)));
    threads.push(Thread::new("b", 2, 0, 0, cpu_ctx::new(0x2000, false, 0x2_0000)));
    threads[0].next = Some(1);
    c.run_queue = Some(0);
    let r = schedule_task(&mut c, &mut threads, regs(0x50)).unwrap();
    assert_eq!(r.rip, 0x1000);
    let r = schedule_task(&mut c, &mut threads, regs(0x1100)).unwrap();
    assert_eq!(r.rip, 0x2000);
    assert_eq!(threads[0].content.frame.rip, 0x1100);
    let r = schedule_task(&mut c, &mut threads, regs(0x2200)).unwrap();
    assert_eq!(r.rip, 0x1100);
    assert_eq!(threads[1].content.frame.rip, 0x2200);
    assert_eq!(c.cur_thread, Some(0));
    assert_eq!(threads[1].tid, 2);
}

#[test]
fn hpet_tick_length_and_sleep() {
    let cap: u64 = (10_000_000u64 << 32) | COUNTER_64BIT;
    let h = HPET::new(0xffff_8000_fed0_0000, cap);
    assert_eq!(h.main_counter_tickns, 10);
    assert_eq!(h.hpet, 0xffff_8000_fed0_0000);
    assert!(!h.ksleep(100, 200, 1));
    assert!(!h.ksleep(100, 100_099, 1));
    assert!(h.ksleep(100, 100_100, 1));
    assert!(h.ksleep(5, 5, 0));
}

#[test]
fn lapic_helpers() {
    assert_eq!(get_lapic_addr(0xfee0_0900, 0xffff_8000_0000_0000), 0xffff_8000_fee0_0000);
    assert_eq!(lapic_ticks(0xffff_0000), 0xffff);
    assert_eq!(lapic_ticks(0xffff_ffff), 0);
    assert_eq!(timer_lvt(true), 0x2_0022);
    assert_eq!(timer_lvt(false), 0x1_0022);
}
