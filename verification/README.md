# SaveSearch

A small Windows tool with two functions:

- it finds files and folders by name on NTFS volumes, from an index that is kept
  up to date by the volume's change journal;
- below the file dialogs of other programs it lists favorite, open and recent
  folders, and leads the dialog to the one that is clicked.

## Layout

- `src/` is the library, verified with Verus: the index (`model`, `index`,
  `search`, `rank`, `pattern`, `characters`, `category`, `locate`), its cache file (`codec`,
  `persist`), the records of the journal and of the table of files (`usn`,
  `wide`, `drives`), the volumes together (`catalog`), lists and settings
  (`config`), and the decisions of the windows (`popup`, `dialog`, `explorer`,
  `events`, `listview`, `searchwin`, `settings_form`, `theme`, `icons`,
  `geometry`, `messages`, `text`).
- `tests/` runs the library on concrete values.
- `app/` is the program around it: files, volumes, windows and threads. Its
  modules under `app/win/` are for Windows only.

What the library promises is stated in the `requires` and `ensures` of its
functions. Properties that span functions are the public proof functions whose
names begin with `law_`.
