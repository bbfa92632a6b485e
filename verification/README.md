# ray_marching

A voxel ray marcher. Packets of rays start where camera rays first hit a
surface of a voxelised scene, march through the voxel grid in a finite set of
directions, and split at each surface into the directions that leave it; the
colours met along each path are averaged into the pixel.

- `src/` is the verified library (Verus): fixed-point packet positions
  (`fixed_point`), the grid of voxel coins over an `ndarray` array (`grid`,
  `voxels`), the direction map and scattering (`direction_map`, `coins`), the
  recursive evaluation of packets (`ray_packet`), the camera's pixel order
  (`camera`), the choice of sample paths (`marcher`) and the unrolling of
  mesh faces (`mesh`).
- `app/` is the program around it: loading OBJ meshes, the floating-point
  geometry (voxelisation, camera rays, colours), rendering in parallel and
  writing the image and the sample paths.
- `tests/` exercises the library on concrete scenes.
