use vstd::prelude::*;

verus! {

/// Per-primitive propagation delays, in ticks of virtual time.
#[derive(Clone, Copy, Debug, PartialEq, Eq, Structural)]
pub struct TimingModel {
    pub clock_period: u64,
    pub lut_delay: u64,
    pub dff_setup_time: u64,
    pub dff_clock_to_q: u64,
    pub bram_read_delay: u64,
    pub bram_write_delay: u64,
    pub wire_delay: u64,
}

impl Default for TimingModel {
    /// A 10-tick clock; 1 tick through a table, a wire, a flip-flop's setup
    /// and its clock-to-output path; 2 ticks for a memory read or write.
    fn default() -> (r: TimingModel)
        ensures
            r == (TimingModel {
                clock_period: 10,
                lut_delay: 1,
                dff_setup_time: 1,
                dff_clock_to_q: 1,
                bram_read_delay: 2,
                bram_write_delay: 2,
                wire_delay: 1,
            }),
    {
        TimingModel {
            clock_period: 10,
            lut_delay: 1,
            dff_setup_time: 1,
            dff_clock_to_q: 1,
            bram_read_delay: 2,
            bram_write_delay: 2,
            wire_delay: 1,
        }
    }
}

impl TimingModel {
    pub fn new(
        clock_period: u64,
        lut_delay: u64,
        dff_setup_time: u64,
        dff_clock_to_q: u64,
        bram_read_delay: u64,
        bram_write_delay: u64,
        wire_delay: u64,
    ) -> (r: TimingModel)
        ensures
            r == (TimingModel {
                clock_period,
                lut_delay,
                dff_setup_time,
                dff_clock_to_q,
                bram_read_delay,
                bram_write_delay,
                wire_delay,
            }),
    {
        TimingModel {
            clock_period,
            lut_delay,
            dff_setup_time,
            dff_clock_to_q,
            bram_read_delay,
            bram_write_delay,
            wire_delay,
        }
    }

    /// Whether data arriving at `data_arrival_time` is settled a full setup
    /// time before the clock edge at `clock_edge_time`.
    pub fn check_setup_time(&self, data_arrival_time: u64, clock_edge_time: u64) -> (r: bool)
        ensures
            r == (data_arrival_time + self.dff_setup_time <= clock_edge_time),
    {
        match data_arrival_time.checked_add(self.dff_setup_time) {
            Some(t) => t <= clock_edge_time,
            None => false,
        }
    }

    /// The delay of a combinational path through `num_luts` tables and
    /// `num_wire_segments` wire segments.
    pub fn calculate_path_delay(&self, num_luts: u64, num_wire_segments: u64) -> (r: u64)
        requires
            num_luts * self.lut_delay + num_wire_segments * self.wire_delay <= u64::MAX,
        ensures
            r == num_luts * self.lut_delay + num_wire_segments * self.wire_delay,
    {
        proof {
            assert(0 <= num_luts * self.lut_delay) by (nonlinear_arith);
            assert(0 <= num_wire_segments * self.wire_delay) by (nonlinear_arith);
        }
        num_luts * self.lut_delay + num_wire_segments * self.wire_delay
    }
}

} // verus!
