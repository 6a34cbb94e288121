# lenia_ca

Flow Lenia, a mass-conserving continuous cellular automaton, and Lenia with a single
channel, simulated on the graphics device with `wgpu`.

- `src/` is the verified library. It plans everything that happens on the device:
  buffers, parameter blocks, bindings, workgroup counts, the order of the passes and
  the transfers. It also holds host versions of the passes and the scene a simulation
  starts from. Numbers are held as bit patterns; floating-point operations are
  arguments.
- `app/` is the program: the window, the device, the shaders and the floating-point
  arithmetic.
- `tests/` run the plans on a device that is emulated on the host.

The laws of the library are public proof functions:

- the FFT passes compute the discrete Fourier transform, and the forward and inverse
  transforms undo each other, in one dimension (`dft`, `wfft`, `fft_step`) and in several
  (`lanes`, `wfft`);
- the steps of an iteration compute one step of the automaton (`step`, `lenia_step`);
- in exact arithmetic the potential of a kernel is a circular convolution, and
  reintegration conserves the mass of every channel, on grids of any shape (`convolve`,
  `mass`, `exact`);
- mass moves no farther than the reach of a step and stays in its channel, and kernels
  that contribute to no channel have no effect (`reach`);
- kernels depend on their own parameters alone, on the side of the grid only as it is
  rounded, and not on the scale of their weights (`kernels`);
- what is uploaded reads back, and leaves the rest alone (`gpu`, `gpu_flow_lenia`,
  `trained`).

## Running

    lenia_ca [--load-kernels [FILE]]

Space pauses and resumes, R fills the channels with new noise, Q or Escape quits.
