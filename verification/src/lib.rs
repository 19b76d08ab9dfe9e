//! Verified kernels of a set of task-parallel benchmarks: merge sorts over
//! integer buffers, the Fibonacci recursion, a branch-and-bound travelling
//! salesman search, and the small helpers around them.

pub mod order;
pub mod slice_sort;
pub mod std_slice;
pub mod std_num;
pub mod merge_sort;
pub mod glob_merge;
pub mod window_sort;
pub mod check;
pub mod fib;
pub mod threshold;
pub mod random;
pub mod tsp;
pub mod tsp_bounds;
