//! GPU-accelerated Flow Lenia cellular automaton simulation.
pub mod bytes;
pub mod complex;
pub mod convolve;
pub mod dft;
pub mod exact;
pub mod fft;
pub mod fft_step;
pub mod function_laws;
pub mod gpu;
pub mod gpu_flow_lenia;
pub mod gpu_lenia;
pub mod kernel_laws;
pub mod kernels;
pub mod lanes;
pub mod layout_laws;
pub mod lenia_laws;
pub mod lenia_step;
pub mod mass;
pub mod nd;
pub mod pass_laws;
pub mod passes;
pub mod plan_laws;
pub mod power;
pub mod reach;
pub mod scene;
pub mod scene_laws;
pub mod step;
pub mod trained;
pub mod ui;
pub mod ui_laws;
pub mod wfft;
