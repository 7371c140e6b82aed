use tong_os::cpu::TrapFrame;
use tong_os::cpu::CONTEXT_SWITCH_TIME;
use tong_os::lock::Mutex;
use tong_os::page::Memory;
use tong_os::process::Kernel;
use tong_os::process::SectionLayout;
use tong_os::process::IDLE_ID;
use tong_os::trap::TrapOutcome;

const BASE: u64 = 0x10_0000;

fn layout() -> SectionLayout {
    SectionLayout {
        text_start: 0x1000,
        text_end: 0x2000,
        rodata_start: 0x2000,
        rodata_end: 0x3000,
        data_start: 0x3000,
        data_end: 0x4000,
        bss_start: 0x4000,
        bss_end: 0x5000,
        heap_start: 0x5000,
        heap_size: 0x1000,
    }
}

fn boot(pages: usize) -> Kernel {
    let mem = Memory::init(BASE, pages);
    Kernel::init(mem, layout())
}

fn ecall(
    k: &mut Kernel,
    hart: usize,
    frame: TrapFrame,
    code: u64,
    a1: u64,
    a2: u64,
    a3: u64,
    a4: u64,
    mtime: u64,
) -> TrapOutcome {
    let mut f = frame;
    f.regs[10] = code;
    f.regs[11] = a1;
    f.regs[12] = a2;
    f.regs[13] = a3;
    f.regs[14] = a4;
    k.tong_os_trap(hart, f, 8, mtime, None, None)
}

fn timer(k: &mut Kernel, hart: usize, frame: TrapFrame, mtime: u64) -> TrapOutcome {
    k.tong_os_trap(hart, frame, (1u64 << 63) | 7, mtime, None, None)
}

fn soft(k: &mut Kernel, hart: usize, frame: TrapFrame, mtime: u64) -> TrapOutcome {
    k.tong_os_trap(hart, frame, (1u64 << 63) | 3, mtime, None, None)
}

fn uart(k: &mut Kernel, hart: usize, frame: TrapFrame, byte: u8, mtime: u64) -> TrapOutcome {
    k.tong_os_trap(hart, frame, (1u64 << 63) | 11, mtime, Some(10), Some(byte))
}

fn running_pid(k: &Kernel, hart: usize) -> u64 {
    k.running[hart].as_ref().unwrap().pid
}

fn running_frame(k: &Kernel, hart: usize) -> TrapFrame {
    k.running[hart].as_ref().unwrap().get_trap_frame()
}

#[test]
fn boot_single_process_runs_and_exits_to_idle() {
    let mut k = boot(256);
    let pid = k.create_thread(0, 0x1000, 42, 0, 0);
    assert_eq!(pid, 1);
    assert_eq!(k.pid_list.len(), 1);
    let f = k.schedule(0, 1000);
    assert_eq!(f.pc, 0x1000);
    assert_eq!(f.regs[10], 42);
    assert_eq!(running_pid(&k, 0), pid);
    for h in 1..4 {
        let _ = k.schedule(h, 1000);
        assert_eq!(running_pid(&k, h), IDLE_ID);
    }
    let stack_idx = ((k.running[0].as_ref().unwrap().stack - BASE) / 4096) as usize;
    let _out = ecall(&mut k, 0, f, 0, 0, 0, 0, 0, 2000);
    for h in 0..4 {
        assert_eq!(running_pid(&k, h), IDLE_ID);
    }
    assert_eq!(k.pid_list.len(), 0);
    // the dead process's stack run went back to the page allocator
    for j in stack_idx..stack_idx + 12 {
        assert_eq!(k.mem.descriptors[j].flags, 0);
    }
}

#[test]
fn two_thread_join_orders_output() {
    let mut k = boot(256);
    let parent = k.create_thread(0, 0x1000, 0, 0, 0);
    let fparent = k.schedule(0, 1000);
    let mut prints: Vec<u64> = Vec::new();
    // parent creates the child with a0 = 7
    let out1 = ecall(&mut k, 0, fparent, 1, 0x1100, 7, 0, 0, 1100);
    let child = out1.frame.regs[10];
    assert_ne!(child, parent);
    // parent joins the child and blocks; the child is scheduled
    let out2 = ecall(&mut k, 0, out1.frame, 2, child, 0, 0, 0, 1200);
    assert_eq!(running_pid(&k, 0), child);
    assert_eq!(out2.frame.regs[10], 7);
    assert_eq!(out2.frame.pc, 0x1100);
    // child prints, then exits; the exit wakes the parent
    let out3 = ecall(&mut k, 0, out2.frame, 5, 111, 7, 0, 0, 1300);
    prints.push(out3.print.unwrap().ptr);
    let out4 = ecall(&mut k, 0, out3.frame, 0, 0, 0, 0, 0, 1400);
    assert_eq!(running_pid(&k, 0), parent);
    // parent prints after the child, then exits
    let out5 = ecall(&mut k, 0, out4.frame, 5, 222, 11, 0, 0, 1500);
    prints.push(out5.print.unwrap().ptr);
    let _out6 = ecall(&mut k, 0, out5.frame, 0, 0, 0, 0, 0, 1600);
    assert_eq!(prints, vec![111, 222]);
    assert_eq!(k.pid_list.len(), 0);
    assert_eq!(running_pid(&k, 0), IDLE_ID);
}

#[test]
fn join_on_dead_pid_resumes_immediately() {
    let mut k = boot(256);
    let _pid = k.create_thread(0, 0x1000, 0, 0, 0);
    let f = k.schedule(0, 1000);
    let out = ecall(&mut k, 0, f, 2, 999, 0, 0, 0, 1100);
    assert_eq!(running_pid(&k, 0), 1);
    assert_eq!(out.frame.pc, 0x1000 + 4);
}

#[test]
fn sleep_wakes_only_after_the_deadline() {
    let mut k = boot(256);
    let pid = k.create_thread(0, 0x1000, 0, 0, 0);
    let f = k.schedule(0, 100_000);
    let ticks: u64 = 5;
    let deadline = 100_000 + ticks * CONTEXT_SWITCH_TIME;
    let out = ecall(&mut k, 0, f, 3, ticks, 0, 0, 0, 100_000);
    assert_eq!(running_pid(&k, 0), IDLE_ID);
    let mut frame = out.frame;
    for mt in [150_000u64, deadline - 1, deadline] {
        let o = timer(&mut k, 0, frame, mt);
        frame = o.frame;
        assert_eq!(running_pid(&k, 0), IDLE_ID);
        assert_eq!(k.sleeping.len(), 1);
    }
    let wake_time = deadline + 1;
    let _o = timer(&mut k, 0, frame, wake_time);
    assert_eq!(running_pid(&k, 0), pid);
    assert!(wake_time >= deadline);
}

#[test]
fn read_line_collects_bytes_and_backspace_edits() {
    let mut k = boot(256);
    let _pid = k.create_thread(0, 0x1000, 0, 0, 0);
    let f = k.schedule(0, 1000);
    let out = ecall(&mut k, 0, f, 4, 0, 0, 0, 0, 1100);
    assert!(k.reading);
    assert!(k.plic_uart_enabled);
    let mut frame = out.frame;
    for b in [b'a', b'b', b'x', 127u8, b'c'] {
        let o = uart(&mut k, 0, frame, b, 1200);
        frame = o.frame;
        assert!(k.reading);
    }
    assert_eq!(k.line_buffer, vec![b'a', b'b', b'c']);
    let _o = uart(&mut k, 0, frame, 13, 1300);
    assert_eq!(k.line_buffer, vec![b'a', b'b', b'c']);
    assert!(!k.reading);
}

#[test]
fn oversubscription_spreads_and_completes() {
    let mut k = boot(1024);
    let n: usize = 16;
    for i in 0..n {
        let _ = k.create_thread(0, 0x1000 + i as u64, 0, 0, 0);
    }
    assert_eq!(k.pid_list.len(), n);
    for h in 0..4 {
        assert!(k.ready[h].len() <= n);
    }
    let mut mt: u64 = 1_000_000;
    for h in 0..4 {
        let _ = k.schedule(h, mt);
    }
    let mut runs = std::collections::HashMap::new();
    let mut rounds = 0;
    let mut balanced_seen = false;
    while k.pid_list.len() > 0 {
        rounds += 1;
        assert!(rounds < 2000, "the counters did not finish");
        for h in 0..4 {
            mt += CONTEXT_SWITCH_TIME;
            let pid = running_pid(&k, h);
            let frame = running_frame(&k, h);
            if pid == IDLE_ID {
                if k.msip[h] {
                    let _ = soft(&mut k, h, frame, mt);
                } else {
                    let _ = timer(&mut k, h, frame, mt);
                }
            } else {
                let count = runs.entry(pid).or_insert(0u32);
                *count += 1;
                if *count >= 6 {
                    let _ = ecall(&mut k, h, frame, 0, 0, 0, 0, 0, mt);
                } else {
                    let _ = timer(&mut k, h, frame, mt);
                }
            }
            // queue depths stay bounded by the spawn count
            for h2 in 0..4 {
                assert!(k.ready[h2].len() <= n);
            }
        }
        // round-robin migration spreads the burst: while most counters are
        // still alive, the load reaches a spread within one quantum of the
        // even share
        if k.pid_list.len() >= 8 {
            let mut loads = [0usize; 4];
            for h in 0..4 {
                loads[h] = k.ready[h].len()
                    + if running_pid(&k, h) != IDLE_ID {
                        1
                    } else {
                        0
                    };
            }
            let max = *loads.iter().max().unwrap();
            let min = *loads.iter().min().unwrap();
            if max - min <= n / 4 + 1 {
                balanced_seen = true;
            }
        }
    }
    assert!(balanced_seen, "round-robin migration never balanced the harts");
    assert_eq!(k.pid_list.len(), 0);
    for (_pid, count) in runs.iter() {
        assert!(*count >= 1);
    }
    assert_eq!(runs.len(), n);
}

struct Philosopher {
    pid: u64,
    first: usize,
    second: usize,
    iterations_left: u32,
    phase: u32,
    eats: u32,
}

#[test]
fn dining_philosophers_all_eat_and_finish() {
    let mut k = boot(1024);
    let n: usize = 5;
    let sleep_ticks: u64 = 500;
    let mut chopsticks: Vec<Mutex> = (0..n).map(|_| Mutex::new()).collect();
    let mut phils: Vec<Philosopher> = Vec::new();
    for i in 0..n {
        let pid = k.create_thread(0, 0x1000 + i as u64, i as u64, 0, 0);
        // philosopher N breaks the cycle: it takes the lowest chopstick first
        let (first, second) = if i < n - 1 { (i, i + 1) } else { (0, n - 1) };
        phils.push(Philosopher {
            pid,
            first,
            second,
            iterations_left: 3,
            phase: 0,
            eats: 0,
        });
    }
    let mut mt: u64 = 1_000_000;
    for h in 0..4 {
        let _ = k.schedule(h, mt);
    }
    let mut eat_lines = 0;
    let mut steps = 0;
    while k.pid_list.len() > 0 {
        steps += 1;
        assert!(steps < 20_000, "the dinner deadlocked");
        let mut any_work = false;
        for h in 0..4 {
            mt += CONTEXT_SWITCH_TIME;
            let pid = running_pid(&k, h);
            let frame = running_frame(&k, h);
            if pid == IDLE_ID {
                if k.msip[h] {
                    let _ = soft(&mut k, h, frame, mt);
                } else {
                    let _ = timer(&mut k, h, frame, mt);
                }
                continue;
            }
            any_work = true;
            let p = phils.iter_mut().find(|p| p.pid == pid).unwrap();
            match p.phase {
                // thinking: sleep, then get hungry
                0 => {
                    p.phase = 1;
                    let _ = ecall(&mut k, h, frame, 3, sleep_ticks, 0, 0, 0, mt);
                },
                // hungry: take the two chopsticks in this philosopher's order
                1 => {
                    if chopsticks[p.first].try_lock() {
                        p.phase = 2;
                    }
                    // a held chopstick means spinning until preempted
                    let _ = timer(&mut k, h, frame, mt);
                },
                2 => {
                    if chopsticks[p.second].try_lock() {
                        p.phase = 3;
                    }
                    let _ = timer(&mut k, h, frame, mt);
                },
                // eating: log one line, then sleep and release
                3 => {
                    p.eats += 1;
                    eat_lines += 1;
                    p.phase = 4;
                    let out = ecall(&mut k, h, frame, 5, 1000 + p.pid, 10, 0, 0, mt);
                    assert_eq!(out.print.unwrap().ptr, 1000 + p.pid);
                },
                4 => {
                    p.phase = 5;
                    let _ = ecall(&mut k, h, frame, 3, sleep_ticks, 0, 0, 0, mt);
                },
                _ => {
                    chopsticks[p.first].unlock();
                    chopsticks[p.second].unlock();
                    p.iterations_left -= 1;
                    if p.iterations_left == 0 {
                        let _ = ecall(&mut k, h, frame, 0, 0, 0, 0, 0, mt);
                    } else {
                        p.phase = 0;
                        let _ = timer(&mut k, h, frame, mt);
                    }
                },
            }
        }
        if !any_work && k.sleeping.len() > 0 {
            // every hart idles while sleepers wait: jump past the deadline
            mt += (sleep_ticks + 1) * CONTEXT_SWITCH_TIME;
        }
    }
    assert_eq!(eat_lines, 15);
    for p in phils.iter() {
        assert_eq!(p.eats, 3);
    }
    assert_eq!(k.pid_list.len(), 0);
}

#[test]
fn create_thread_registers_and_queues_ready() {
    let mut k = boot(256);
    let a = k.create_thread(0, 0x1000, 1, 2, 3);
    let b = k.create_thread(2, 0x2000, 0, 0, 0);
    assert_eq!(a, 1);
    assert_eq!(b, 2);
    assert_eq!(k.ready[0].len(), 1);
    assert_eq!(k.ready[2].len(), 1);
    assert_eq!(k.pid_list.len(), 2);
    let p = &k.ready[0][0];
    assert_eq!(p.trap_frame.regs[10], 1);
    assert_eq!(p.trap_frame.regs[11], 2);
    assert_eq!(p.trap_frame.regs[12], 3);
    assert_eq!(
        p.trap_frame.regs[2],
        p.stack + 12 * 4096 - 544
    );
}

#[test]
fn time_now_returns_the_clock() {
    let mut k = boot(256);
    let _pid = k.create_thread(0, 0x1000, 0, 0, 0);
    let f = k.schedule(0, 1000);
    let out = ecall(&mut k, 0, f, 6, 0, 0, 0, 0, 123_456);
    assert_eq!(out.frame.regs[10], 123_456);
    assert_eq!(out.frame.pc, 0x1000 + 4);
}
