#!/bin/sh
# Packs a directory of patches into the archive that rewrite-moodle reads from beside its executable.
# Usage: pack_patches.sh <directory of patches> <directory of the executable>
set -eu
tar -C "$1" -cf - . | zstd --ultra -22 -q -f -o "$2/patches.tar.zst"
