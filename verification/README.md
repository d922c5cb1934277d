# fat-repair

Checks and repairs FAT32 volumes after an interrupted write: a FAT sector or a directory entry that was only half
written when the power went. It is not a complete check. It does not rebuild boot sectors, remap bad blocks, or recover
files whose directory entry is gone.

    let mut fs = FileSystem::new(disk)?;
    let mut buf = [0u8; 8 * REPAIR_FRAME_SIZE];
    let stats = fs.repair(RepairMode::minimal(), &mut RepairScratch::new(&mut buf))?;
    let disk = fs.unmount()?;

`RepairMode` selects the classes of damage to look for. `RepairMode::minimal()` is the mode for ordinary use;
`RepairMode::all()` also reclaims clusters that no directory entry reaches, which costs three passes over the FAT;
`RepairMode::dry_run()` reports without writing. The caller supplies all working memory: `scratch_size_for_depth` bytes,
one small frame for each level of directory nesting.

## Layout

`src/` is verified with Verus. Each step of a repair has a contract that says what it makes of the bytes of the device
and of the report:

- `storage`, `volume`, `geometry`, `boot`: the device, the layout, and raw accesses
- `fat`, `passes`, `chain`: FAT entries, passes over the whole FAT, one cluster chain
- `dirent`, `dir`, `entry`, `walk`, `scratch`: directory entries, directories, and the walk of the tree
- `fs`, `fatcache`, `repair`: the mounted file system, its FAT cache, and the repair as a whole
- `laws`, `repeat_laws`, `image_laws`, `mode_laws`, `dry_laws`, `dir_laws`, `chain_laws`, `pass_laws`, `stale`: what
  holds of a repair as a whole, of one repair after another, of two modes, of a dry run, and of a directory that was
  scanned, with the lemmas behind it in `kept`, `kept_walk`, `phases`, `counts` and `dry_walk`, and in `owned`,
  `visits`, `advance`, `again` and `twice`
- `confined`, `bounded`, `halting`, `interrupted`: what a repair that the device interrupts may have done

`app/` puts devices that speak `embedded-io-async` behind the library's storage interface.
