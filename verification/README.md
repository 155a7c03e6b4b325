# aa

Windows system information helpers, verified with Verus.

- `src/` is the verified library: decoding of the raw SMBIOS firmware table
  (`smbios`, `dmi_string`), the `GetSystemInfo` record (`types`), the standard
  clipboard formats (`formats`) and the clipboard transfers as state machines
  (`clipboard`), with the text helpers they use (`text`).
- `app/` makes the Windows calls (`GetSystemInfo`, `GetSystemFirmwareTable`,
  the clipboard and global memory API) and drives the clipboard state machines.
- `tests/` exercises the library on hand-built tables and call replies.
